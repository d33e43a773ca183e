use vstd::prelude::*;

pub mod actuators;
pub mod changer;
pub mod config;
pub mod gcode;
pub mod import;
pub mod job;
pub mod photon;
pub mod text;
pub mod vision;

