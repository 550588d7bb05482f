pub mod bot;
pub mod coord;
pub mod game;
pub mod graph;
pub mod grid;
pub mod map;
pub mod path;
pub mod render;
pub mod types;
