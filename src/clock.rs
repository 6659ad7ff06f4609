use crate::model::Timestamp;
use vstd::prelude::*;

verus! {

/// Relies on chrono's `Local::now`, read through `DateTime::timestamp` and
/// `DateTime::timestamp_subsec_nanos`: the present instant. Nothing is known
/// of its value.
#[verifier::external_body]
pub(crate) fn now() -> (r: Timestamp) {
    let t = chrono::Local::now();
    Timestamp { secs: t.timestamp(), nanos: t.timestamp_subsec_nanos() }
}

} // verus!
