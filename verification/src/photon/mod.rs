//! The PhotonFeeder RS-485 protocol: packets, commands, and the decisions of the bus.

pub mod bus;
pub mod commands;
pub mod packet;
