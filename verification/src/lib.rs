//! Zone streaming for an unbounded two-dimensional world.
//!
//! The plane is tiled by square zones. What a zone holds is decided by a
//! generator seeded from the zone's coordinates alone, so that a zone can be
//! dropped from memory and brought back later. A registry records which zones
//! are live, and a per-tick controller decides what to create and what to
//! remove as the player moves.

pub mod grid;
pub mod config;
pub mod archetype;
pub mod stream;
pub mod index;
pub mod population;
pub mod generator;
pub mod registry;
pub mod streaming;
