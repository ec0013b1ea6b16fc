//! Declarations that let structured JSON values ride through the engine.
//!
//! The engine never looks inside a step's parameters or a tool's output;
//! it only carries them from the plan to the driver and from the driver
//! into the aggregated result. The value type is therefore declared
//! opaque.

use vstd::prelude::*;

verus! {

/// Declares serde_json::Value so it can stand in signatures and fields.
/// The verifier sees nothing inside such a value: it is carried, compared
/// for equality in contracts, and never inspected.
#[verifier::external_type_specification]
#[verifier::external_body]
pub struct ExValue(serde_json::Value);

/// Relies on serde_json::Value's Clone implementation: the clone is an
/// exact copy of the original value.
pub assume_specification[ <serde_json::Value as Clone>::clone ](
    v: &serde_json::Value,
) -> (r: serde_json::Value)
    ensures
        r == *v,
;

} // verus!
