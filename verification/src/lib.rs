//! A Battlesnake player: the rules by which it picks a move, proved.
pub mod grid;
pub mod model;
pub mod search;
pub mod snake;
pub mod strategy;
pub mod text;
pub mod moves;
pub mod paths;
