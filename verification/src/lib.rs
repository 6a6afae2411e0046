//! The verified core of a voxel sandbox game: chunk storage, terrain block
//! rules, binary greedy meshing, chunk streaming, and the game's state
//! machine.

pub mod config;
pub mod ingame;
pub mod input;
pub mod states;
pub mod world;
