//! A rock-paper-scissors particle arena on fixed-point coordinates.
//!
//! Entities of three cyclic kinds drift around a bounded arena, convert each
//! other on contact, chase prey and flee predators, and leave the arena once a
//! single kind has taken over. Every quantity is an integer count of
//! millionths of an arena unit, so that each step is exact and reproducible.

pub mod entity;
pub mod fixed;
pub mod kind;
pub mod revolvingrandom;
mod rng;
pub mod world;
