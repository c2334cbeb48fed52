//! The JSON value of the Codex credentials, carried through the account
//! records without being looked into.
use vstd::prelude::*;

verus! {

/// `serde_json::Value`, declared so that account records can hold it. Its
/// contents are not visible here.
#[verifier::external_type_specification]
#[verifier::external_body]
pub struct ExJsonValue(serde_json::Value);

/// `<serde_json::Value as Clone>::clone`, which `#[derive(Clone)]` writes
/// for the enum: the copy is the same value.
pub assume_specification[ <serde_json::Value as Clone>::clone ](v: &serde_json::Value) -> (r: serde_json::Value)
    ensures
        r == *v,
;

} // verus!
