//! A date-partitioned event store: per-day tables of boolean outcomes
//! ("open" vs "press") keyed by client identifier, with last-write-wins
//! upserts and full-scan aggregation.

use vstd::prelude::*;

pub mod errors;
pub mod partition;
pub mod store;
pub mod tally;

pub use errors::StoreError;
pub use partition::PartitionKey;
pub use partition::resolve_partition;
pub use store::EventStore;
pub use tally::tally_outcomes;

verus! {

/// Greeting shown at the root of the site; callers serve it verbatim.
pub fn index() -> (r: &'static str)
    ensures
        r@ == "Hello. Please ignore this page and return to our site https://buttoncorp.org. Thank you."@,
{
    "Hello. Please ignore this page and return to our site https://buttoncorp.org. Thank you."
}

/// The cross-origin policy attached to every response: the calling HTTP
/// layer sets exactly these headers, in this order.
pub struct CORS;

impl CORS {
    /// The response header (name, value) pairs of the policy.
    pub fn headers() -> (r: Vec<(&'static str, &'static str)>)
        ensures
            r@.len() == 4,
            r@[0].0@ == "Access-Control-Allow-Origin"@,
            r@[0].1@ == "https://buttoncorp.org"@,
            r@[1].0@ == "Access-Control-Allow-Methods"@,
            r@[1].1@ == "POST, GET, PATCH, OPTIONS"@,
            r@[2].0@ == "Access-Control-Allow-Headers"@,
            r@[2].1@ == "*"@,
            r@[3].0@ == "Access-Control-Allow-Credentials"@,
            r@[3].1@ == "true"@,
    {
        let mut v: Vec<(&'static str, &'static str)> = Vec::new();
        v.push(("Access-Control-Allow-Origin", "https://buttoncorp.org"));
        v.push(("Access-Control-Allow-Methods", "POST, GET, PATCH, OPTIONS"));
        v.push(("Access-Control-Allow-Headers", "*"));
        v.push(("Access-Control-Allow-Credentials", "true"));
        v
    }
}

} // verus!
