//! Rules engine of a two-player board game that joins draughts with a
//! Go-like game of stones and territory.

pub mod game;
pub mod grid;
pub mod laws;
pub mod logic;
pub mod moves;
pub mod reach;
pub mod territory;
