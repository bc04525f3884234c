//! Conway's Game of Life on a finite grid with hard edges.

pub mod game;
pub mod game_conf;
pub mod grid;
pub mod laws;
pub mod text;
