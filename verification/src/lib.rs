//! Routing and allocation engine for a two-sided, grid-based
//! resource-collection game.
//!
//! A [`Game`] is an arena of cells with index-based adjacency. The engine
//! answers breadth-first shortest-path queries over it, expands directional
//! intents into beacons, rations units between beacons, and advances units one
//! hop per turn. Boards and their per-turn updates are read from and written
//! to lines of bytes.

pub mod graph;
pub mod pathfinder;
pub mod first_found;
pub mod actions;
pub mod allocator;
pub mod engine;
pub mod text;
pub mod protocol;
pub mod round_trip;

pub use graph::{Cell, CellKind, EngineError, Game};
pub use actions::{Action, ActionBeacon, ActionLine, ActionMessage};
pub use allocator::MoveAssignment;
pub use protocol::ParsingError;
