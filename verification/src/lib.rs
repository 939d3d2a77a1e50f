//! The rules engine of a single-player grid-based mine-clearing puzzle.
//!
//! The library owns board generation (mine placement and adjacency counts),
//! cell state, the cascading reveal, chorded mass-reveal, flagging, and
//! win/loss determination. Every operation carries a contract that pins its
//! effect on the board down cell by cell; a presentation layer is expected to
//! translate raw input into the engine's logical actions and to render the
//! read-only snapshot the engine exposes.

pub mod board;
pub mod engine;
mod flood;
mod rng;
