//! Algorithms on the production graph.
pub mod condensation;
pub mod cost;
pub mod dominance;
pub mod prune;
pub mod scc;
pub mod settling;
pub mod worth;

pub use condensation::Condensation;
pub use cost::{CostDb, CostVector, CostWeights};
pub use scc::SccResult;
