//! Turns a two-colour maze bitmap into a sparse graph of its junctions,
//! corners, dead ends and entrances, linked along the corridors between them.

pub mod coords;
pub mod error;
pub mod pixels;
pub mod border;
pub mod topology;
pub mod graph;
pub mod pipeline;
