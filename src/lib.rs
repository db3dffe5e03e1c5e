//! Hexagonal-grid puzzle logic: a column-offset hex coordinate model, the
//! escape-aware breadth-first pathfinder, trap placement and the turn and
//! level state machine of a "trap the piece" game.

pub mod hexgrid;
pub mod walks;
pub mod level_setup;
pub mod pathfinding;
pub mod levels;
pub mod game;
pub mod level_reset;
pub mod menu;
