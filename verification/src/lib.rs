//! A chess position library: bitboard position model, legal-move generation,
//! attack maps, and a fixed-depth alpha-beta search, with machine-checked
//! contracts for the state-transition and move-generation core.

pub mod attacks;
pub mod bits;
pub mod evaluation;
pub mod fen;
pub mod game;
pub mod laws;
pub mod legal;
pub mod model;
pub mod movegen;
pub mod position;
pub mod search;
pub mod types;

use vstd::prelude::*;

verus! {

} // verus!
