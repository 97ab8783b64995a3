//! Game logic of Gridentify: a 5x5 board of numbers on which a move joins a
//! path of equal, adjacent tiles into its last tile.
pub mod board;
pub mod paths;
pub mod cells;
pub mod action;
pub mod state;
pub mod grid;
pub mod random;
pub mod local;
pub mod high_score;
pub mod session;
pub mod bot;
pub mod lucid;
pub mod marks;
pub mod memo;
pub mod weigh;
pub mod valuation;
pub mod choice;
