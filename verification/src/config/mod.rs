//! Configuration values that the library's logic reads, and their defaults.

pub mod boards;
pub mod feeders;
pub mod jobs;
pub mod nozzle_tips;
