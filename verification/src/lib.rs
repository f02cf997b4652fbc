//! A structural reactive dependency-tracking engine.
//!
//! Client code obtains cheap, path-addressed handles into nested data
//! (products, sums, optionals, sequences, leaves) and is notified precisely
//! when the value reachable at a given path may have changed. The observer
//! tree is materialized lazily, sequence children are cached only weakly,
//! and the invalidation sweep reclaims unclaimed slots as a side effect —
//! its cost is bounded by what is observed, never by how much data exists.

pub mod edge;
pub mod laws;
pub mod mapper;
pub mod node;
pub mod store;
pub mod sweep;
pub mod value;
