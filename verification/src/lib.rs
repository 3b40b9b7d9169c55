//! A turn-based planning engine for a two-player organism-growth board game.
//!
//! The library models the board as an immutable snapshot (`state::State`),
//! derives the legal decisions of the side to move, resolves a turn
//! (harvest credits and chain destruction of attacked organisms), scores
//! resolved states with a heuristic, and drives a time-boxed, seeded
//! beam search over whole turns (`ai::planifier`).

pub mod atome;
pub mod decision;
pub mod molecule;
pub mod state;
pub mod step;
pub mod sampling;
pub mod ai;
pub mod common;
