//! Pick-and-place jobs: the plan of steps and the bookkeeping of a running job.

pub mod pick;
pub mod plan_laws;
pub mod plan_once;
pub mod plan_shape;
pub mod planner;
pub mod progress;
pub mod run_end;
pub mod run_laws;
pub mod types;
