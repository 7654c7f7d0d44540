//! A minimal ballot registry: an ordered list of candidates, each with a
//! nickname, the identifier of the wallet that owns the entry, and a vote
//! tally. The registry is a plain value; the caller loads it, applies one
//! operation, and persists the result. `registry` holds the data model and
//! the four operations; `codec` gives the registry a byte-level persisted
//! form and proves that it round-trips.

pub mod codec;
pub mod registry;
