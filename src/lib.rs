pub mod board;
pub mod game;
pub mod heuristics;
pub mod player;
pub mod search;
pub mod symmetry;
pub mod table;
