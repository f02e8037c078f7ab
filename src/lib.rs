//! Location-insensitive loan liveness: derives, from region and borrow facts,
//! the set of control-flow points at which each loan is live.

pub mod facts;
pub mod relation;
pub mod location_insensitive;
pub mod output;
pub mod laws;
