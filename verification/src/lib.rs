//! Track-association voting kernel.
//!
//! Given pairwise similarity measurements between "query" tracks and
//! candidate "winner" tracks, the kernel decides, for each query, which
//! single candidate it should be associated with, resolving conflicts
//! where several queries compete for the same candidate.
//!
//! Distances are fixed-point: a caller scales its real-valued feature
//! distances to unsigned integers (larger means farther). Weights are
//! exact integer sums, so every stage of the kernel is deterministic and
//! fully specified.

pub mod model;
pub mod stage;
pub mod order;
pub mod best;
pub mod fallback;
pub mod laws;
