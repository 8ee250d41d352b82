//! Plain data and rules of the game's user interface: screen directions,
//! widget ids and hit tests, mesh and scene node ids.

pub mod dir;
pub mod gui;
pub mod mesh;
pub mod scene;
pub mod player_info;
pub mod reinforcements;
pub mod score;
