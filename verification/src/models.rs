//! Rows of the league's player directory.

pub mod players;
