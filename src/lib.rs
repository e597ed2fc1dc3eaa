//! A two-player connection game on a rhombus of hexagonal cells: the board,
//! hex adjacency, connected components and the win condition.
pub mod board;
pub mod cell;
pub mod components;
pub mod game;
pub mod win;
pub mod render;
