//! Incremental prediction and rating engine for head-to-head competitions.
//!
//! Three independent predictors (a skill-rating model, a pairwise-history
//! model and a recent-form model) are fed the same chronological stream of
//! match results. Every quantity is held exactly: probabilities are
//! fractions of integers and ratings are fixed-point integers, so each
//! contract in this crate is a statement about integers, sequences and maps.

pub mod data;
pub mod model;
pub mod models;
pub mod outcome;
pub mod rating;
pub mod utils;
