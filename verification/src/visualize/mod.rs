//! The visualizer: what it remembers, how fast it plays, and how it reacts.

pub mod grid_state;
pub mod history;
pub mod input;
pub mod paint;
pub mod renderer;
pub mod scale;
pub mod session;
pub mod status;
