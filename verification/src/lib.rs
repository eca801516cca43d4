use vstd::prelude::*;

pub mod amount;
pub mod model;
pub mod operations;
pub mod store;
pub mod rewards;
pub mod schedule;
pub mod clash;
pub mod error;
pub mod config;
pub mod events;
pub mod gng;
pub mod laws;
