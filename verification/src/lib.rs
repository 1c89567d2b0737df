//! Maze generation and navigation for a tile-based adventure game.
//!
//! The crate builds perfect mazes over a grid with a growing-tree carver,
//! derives the connectivity graph of a maze together with its longest
//! dead-end-to-dead-end path, samples spawn cells without repetition and
//! answers movement queries. The small state machines that drive the user
//! interface and the scene changes of the game live here as well.

pub mod direction;
pub mod grid;
pub mod tiles;
pub mod maze;
pub mod corners;
pub mod walks;
pub mod random;
pub mod counting;
pub mod generator;
pub mod graph;
pub mod connectivity;
pub mod paths;
pub mod primes;
pub mod bag;
pub mod spawn;
pub mod navigation;
pub mod timing;
pub mod cron;
pub mod input;
pub mod state;
pub mod programs;
pub mod progression;
pub mod player;
