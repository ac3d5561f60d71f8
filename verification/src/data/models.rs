//! The record types the models read and write.

pub mod data;
pub mod games;
pub mod head2head;
pub mod last10;
pub mod prediction;
pub mod probability;
pub mod teams;
