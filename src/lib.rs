//! A fleet of robots exploring a generated grid world, collecting resources and
//! reporting what they found to a central station.

pub mod tile;
pub mod map;
pub mod path;
pub mod robot;
pub mod station;
pub mod sim;
pub mod roles;
mod chance;
