//! Skill ratings.

pub mod openskill;
