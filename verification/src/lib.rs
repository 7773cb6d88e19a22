//! Wire-protocol codec for a turn-based grid-strategy game engine.
//!
//! The engine and the player agent exchange newline-terminated,
//! space-delimited text frames over standard streams. This crate holds the
//! protocol logic: decoding the engine's positional encodings of map
//! geometry, tile ownership (run-length encoded) and tile strength into an
//! in-memory grid, and serializing the agent's per-tile moves back into the
//! engine's positional text format. Reading and writing the lines themselves
//! is left to the caller, which hands each line in as plain bytes.

pub mod codec;
pub mod error;
pub mod grid;
pub mod laws;
pub mod moves;
pub mod session;
pub mod text;
