//! Level generation, guard navigation and heist rules for a stealth time-loop
//! game, with their contracts stated and proved alongside the code.

pub mod grid;
pub mod rng;
pub mod level;
pub mod adversary;
pub mod seed;
pub mod persistence;
pub mod state;
pub mod catch;
pub mod time_loop;
pub mod coins;
pub mod loading;
pub mod billboard;
pub mod debug;
pub mod vault;
pub mod employee;
pub mod dungeon;
pub mod props;
