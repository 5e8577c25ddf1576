//! A rules engine for chess variants played on rectangular boards with holes:
//! board and piece model, move generation, turn handling, static evaluation
//! and a fixed-depth adversarial search.

pub mod engine;
