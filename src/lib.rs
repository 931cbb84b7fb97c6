//! A Minesweeper game-state engine: the grid model, deferred center-safe
//! mine placement, neighbor counting, cascading reveal, flag accounting,
//! win/loss detection and the end-of-game reveal animation.
use vstd::prelude::*;

pub mod cell;
pub mod counting;
pub mod helpers;
pub mod placement;
pub mod game;
pub mod laws;

verus! {

} // verus!
