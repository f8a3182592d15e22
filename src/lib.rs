//! Decision core of an automated falling-block puzzle player: piece
//! mechanics, move generation and a speculative search tree.
//!
//! - `piece`: piece kinds, orientations, and the movements of a falling piece.
//! - `board`: the field, the piece queue and the hold slot; locking and line clears.
//! - `lock_data`: what a lock produces, and running statistics.
//! - `moves`: every distinct resting place a piece can reach, with the cheapest inputs found.
//! - `evaluation`: scores, the discount that propagates them, and the evaluator interface.
//! - `tree`: the search tree, its expansion policy, speculation and revelation.
//! - `controller`: the buttons of one input frame and their packing.
//! - `arrays`: the bounded sequences of `arrayvec` as the library uses them.

pub mod arrays;
pub mod board;
pub mod controller;
pub mod evaluation;
pub mod lock_data;
pub mod moves;
pub mod piece;
pub mod tree;
