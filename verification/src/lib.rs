//! A FreeCell engine: the card model, the board with its legality rules,
//! supermove capacity and automatic sweep, an undo/redo history of board
//! snapshots, and the session controller that drives one game.
//!
//! The terminal presentation around the engine is not part of this crate's
//! verified surface; it consumes the query and command interface exposed here.

pub mod card;
pub mod model;
pub mod board;
pub mod stats;
pub mod session;
