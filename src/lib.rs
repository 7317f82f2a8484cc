//! Logical engine of a turn-based, grid-based pushing dungeon crawler.
//!
//! A world is a sparse grid of tiles. Every operation that changes it returns a
//! new world together with an ordered log of what happened, so that a renderer
//! can animate the change while the old world stays available for undoing.

pub mod coords;
pub mod obj;
pub mod world;
pub mod events;
pub mod resolver;
pub mod agents;
pub mod visibility;
pub mod topology;
pub mod turns;
pub mod laws;
pub mod animation;
pub mod generation;

