//! A verified engine for a grid-based snake game: a walled board with
//! food, portals and a multi-segment snake, stepped one tick at a time
//! under directional input; a text format that describes boards; and a
//! typed event pool that decouples input-producing widgets from the
//! controller that consumes their events.

pub mod board;
pub mod board_file;
pub mod engine;
pub mod event_emitter;
mod rng;
pub mod selection_window;
pub mod terminal_tools;
