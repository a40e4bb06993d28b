//! Declarations of the outside types that the library carries without looking
//! inside them.
use vstd::prelude::*;

verus! {

/// A JSON value of `serde_json`; the map carries a list of them that it
/// never inspects.
#[verifier::external_type_specification]
#[verifier::external_body]
pub struct ExJsonValue(serde_json::Value);

} // verus!
