//! Rules engine for a grid-based mine-clearing puzzle.
//!
//! The crate is split in three layers, leaves first:
//! - `rules`: the authoritative state machine (mine grid, opened mask,
//!   neighbour counts, coarse game state) together with the lazy board
//!   generator that keeps the first-probed cell clear;
//! - `game`: the player-facing overlay (flags, the remaining-mine counter,
//!   cascading reveal of zero-count regions, chording, and the endgame
//!   board reconciliation);
//! - `timer`: the elapsed-time tracker the overlay starts on the first
//!   probe and stops when the game ends.
//!
//! `grid` holds the row-major grid plumbing the other modules share.

pub mod game;
pub mod grid;
pub mod rules;
pub mod timer;

pub use game::{Action, Cell, CustomBoard, Difficulty, Game, Settings};
