//! Planners: expansion of a tree of demands, and searches around it.
pub mod assemble;
pub mod beam;
pub mod growth;
pub mod ledger;
pub mod making;
pub mod mcts;
pub mod neighbours;
pub mod score;
pub mod steps;
pub mod telling;
pub mod totals;
pub mod tree;

pub use beam::{
    plan_beam, plan_beam_with_evaluator, recipe_alternatives, BatchEvaluator, BeamOptions,
};
pub use mcts::{plan_mcts, MctsOptions};
pub use tree::{greedy_choices, plan_tree, PlanRequest};
