//! Procedural generation of crossmath puzzles: small equations laid out on a
//! grid so that crossing equations share a number, crossword-style.

pub mod builder;
pub mod cell;
pub mod crop;
pub mod decimal;
pub mod equation;
pub mod error;
pub mod insertion;
pub mod placement;
pub mod puzzle;
pub mod random;
