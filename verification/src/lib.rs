//! A verified engine for Reversi (Othello) on the classic 8x8 grid.
//!
//! The engine owns the board state and proves the rules of the game:
//! move legality, directional capture ("flipping"), pass detection and
//! scoring. Rendering and the interactive turn loop are left to a driver.

pub mod board;
pub mod player;
