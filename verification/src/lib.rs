//! Rules engine for a multi-round climbing card game (a President/Scum
//! variant).  The engine owns all game truth: card ranking, hand contents,
//! whose turn it is, what constitutes a legal play, how a round ends, how
//! social rank is assigned, and how that rank carries into the next round's
//! exchange phase.

pub mod card;
pub mod deck;
pub mod event;
pub mod game;
pub mod input;
pub mod player;
pub mod rank;
pub mod state;
pub mod token;

use vstd::prelude::*;

verus! {

} // verus!
