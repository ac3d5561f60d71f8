//! The predictors and the orchestrator that drives them.

pub mod historical;
pub mod last10;
pub mod model;
pub mod ranker;
pub mod state;
pub mod vote;
