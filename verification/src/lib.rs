//! A verified core for the board game Hex: a coordinate system for the rhombic
//! grid, and a board that tracks both players' stones and detects a winning
//! chain after every move with two union-find forests over a padded index
//! space.

pub mod board;
pub mod coord;
pub mod forest;
