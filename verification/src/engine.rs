//! The rules engine, leaves first.

pub mod types;
pub mod piece;
pub mod board;
pub mod movement;
pub mod evaluator;
pub mod minmax;
pub mod game;
pub mod utils;
pub mod generator;
