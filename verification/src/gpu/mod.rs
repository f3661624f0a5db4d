//! Judging many assignments of recipes at once, on a device that computes in
//! parallel: the data that goes there and what comes back.
pub mod blocks;
pub mod eval;
pub mod flows;
pub mod linear;
pub mod subgraph;

pub use linear::GpuUnavailable;
pub use subgraph::{CandidateTable, SubgraphData};
