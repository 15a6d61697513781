//! Game events: immutable records of what an accepted input changed.
//! Every accepted transition returns an ordered list of these; the engine
//! keeps no event history of its own.

use vstd::prelude::*;

use crate::card::Card;
use crate::rank::Ranking;

verus! {

/// One thing that happened during an accepted call.  Players are named by
/// seat index; the caller can resolve indices to names through the status
/// queries.
#[derive(Debug, PartialEq)]
pub enum GameEvent {
    /// A round was dealt and begun.
    Start,
    /// A regular play of one uniform-rank set.
    Play { player: usize, cards: Vec<Card> },
    /// A pass.
    Skip { player: usize },
    /// A play that emptied the player's hand.
    Complete { player: usize, cards: Vec<Card> },
    /// A four-of-a-kind, winning the trick outright.
    Bomb { player: usize, cards: Vec<Card> },
    /// The player emptied their hand and earned the given social rank.
    Finish { player: usize, rank: Ranking },
    /// All but one player have finished; the round is over.
    RoundFinish,
    /// The pick stage of a new round has begun.
    StartPick,
    /// The picking player recorded their choice.
    Pick { player: usize, choice: u32 },
    /// The exchange stage of a new round has begun.
    StartExchange,
    /// The lower-ranked giver nominated a card for the taker.
    Offer { giver: usize, taker: usize },
    /// The taker reciprocated and the two-way transfer was executed.
    Exchange { giver: usize, taker: usize },
}

impl GameEvent {
    /// Whether this event closes the round.
    pub fn is_over(&self) -> (r: bool)
        ensures
            r == (*self is RoundFinish),
    {
        match self {
            GameEvent::RoundFinish => true,
            _ => false,
        }
    }
}

} // verus!
