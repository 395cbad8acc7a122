//! Maze construction and pathfinding, and the model of a terminal
//! visualizer that animates them.
//!
//! * [`maze`]: the maze and its cell grid, which emits every change as an
//!   event.
//! * [`generators`] and [`solvers`]: the producers of such events.
//! * [`visualize`]: what the visualizer keeps of them and how it reacts:
//!   the bounded history for stepping back and forth, the compact grid for
//!   redrawing, the speed scale, and the renderer's state machine.
//! * [`game`]: a walk through a generated maze.
//!
//! The library decides and computes; drawing on the terminal, reading
//! keys, sleeping and running threads are left to the program around it.

pub mod game;
pub mod generators;
pub mod maze;
pub mod solvers;
pub mod visualize;
