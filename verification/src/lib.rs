//! Resource-collection simulation: autonomous robots explore a grid map, share
//! what they perceive through the base, and carry resources back to it.

pub mod world;
pub mod chance;
pub mod map;
pub mod knowledge;
pub mod pathfinding;
pub mod robot;
pub mod base;
pub mod display;
