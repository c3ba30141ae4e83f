//! Seeded generation of rectangular perfect mazes and randomised
//! depth-first search for a path from start to finish.

pub mod backtracker;
pub mod carve;
pub mod connect;
pub mod img;
pub mod maze;
pub mod prims;
pub mod prims2;
pub mod psolver;
pub mod rng;
pub mod solver;
pub mod shared;
