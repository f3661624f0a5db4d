//! Plans production chains of GregTech out of a recipe export.
//!
//! - The facts: [`raw`] is the export as it is read, [`parser`] builds the
//!   [`graph`] of it, and [`names`] and [`chances`] add what the export lacks.
//! - The analysis: [`algo`] finds components, costs and dominated recipes, and
//!   [`analysis`] holds them together.
//! - The plans: [`planner`] expands a demand and searches around the expansion,
//!   [`solver`] states it as a linear program, [`gpu`] prepares rough judging on a
//!   device, and [`plan`], [`process`] and [`record`] are what comes out.
//! - The clients: [`api`], [`view`] and [`report`].
//!
//! Numbers are computed by an [`scalar::Arithmetic`]; see there.
use vstd::prelude::*;

pub mod algo;
pub mod analysis;
pub mod api;
pub mod balance;
pub mod chances;
pub mod choices;
pub mod error;
pub mod finding;
pub mod fixed;
pub mod flowing;
pub mod gpu;
pub mod graph;
pub mod intern;
pub mod lines;
pub mod list;
pub mod lookup;
pub mod model;
pub mod names;
pub mod order;
pub mod parser;
pub mod picture;
pub mod plan;
pub mod planner;
pub mod prices;
pub mod process;
pub mod program;
pub mod raw;
pub mod reading;
pub mod record;
pub mod report;
pub mod roots;
pub mod scalar;
pub mod scale;
pub mod solution;
pub mod solver;
pub mod takein;
pub mod text;
pub mod util;
pub mod view;
pub mod words;

verus! {

/// The version of the library.
pub const VERSION: &'static str = "0.1.0";

} // verus!
