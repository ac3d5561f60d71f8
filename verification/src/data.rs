//! Records and the store that holds them.

pub mod db;
pub mod models;
