//! Rules and data of a hexagonal turn-based tactics game: map geometry,
//! unit data, game state transitions, command validation, path finding
//! and per-player visibility filtering of game events.

pub mod types;
pub mod dir;
pub mod map;
pub mod unit;
pub mod db;
pub mod event;
pub mod state;
pub mod pathfinder;
pub mod sight;
pub mod fow;
pub mod filter;
pub mod rules;
pub mod game;
pub mod ai;
pub mod misc;
pub mod view;
