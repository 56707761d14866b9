//! Puzzle-logic core of a top-down puzzle game: boolean circuit evaluation
//! over an authored node graph, per-tick binding of input and output devices
//! to the graph, and the lifecycle of the active level.

pub mod blueprint;
pub mod config;
pub mod gate;
pub mod input;
pub mod level;
pub mod level_pack;
pub mod logic_graph;
pub mod manager;
pub mod output;
pub mod time_shift;
pub mod ui;
