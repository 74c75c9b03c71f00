//! Simulation core of a turn-based dungeon crawler: tiles and rooms, the
//! entity and combat model, dungeon generation and the per-turn resolver.
pub mod structs;
pub mod text;
pub mod combat;
pub mod dungeon;
pub mod reach;
pub mod turn;
