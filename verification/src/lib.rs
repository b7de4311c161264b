//! A colour-flooding puzzle on a square board.
//!
//! The player points at a cell, picks a replacement colour and floods the
//! contiguous region of equally coloured cells under the cursor. This crate
//! holds the board, the flood fill that finds such a region, and the state
//! machine that keeps the one pending action in step with the cursor.

pub mod grid;
pub mod random;
pub mod board;
pub mod region;
pub mod action;
pub mod state;
