//! Shared visibility on a grid map: which cells every team can see at once.

pub mod grid;
pub mod laws;
pub mod map;
pub mod officer;
pub mod order;
pub mod solver;
pub mod state;
pub mod teams;
pub mod unit;

pub use state::{GameState, UnitState};
