//! A sliding-tile merge engine: a square board of numbered tiles that slide
//! and merge in one of four directions, with scoring, spawning of new tiles
//! and detection of the terminal state.
//!
//! Beside the engine the crate holds two small utilities: a generator of
//! TypeScript declarations for the class selectors of a CSS module, and a
//! composer of single-argument functions.

pub mod grid;
pub mod direction;
pub mod tiles;
pub mod shift;
pub mod game;
pub mod pipe;
pub mod css;
