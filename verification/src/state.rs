//! The coarse round lifecycle: the engine's detailed phases, collapsed to
//! the five stops a round visits in order.  Useful for front ends that
//! only care which stage of a round they are in.

use vstd::prelude::*;

use crate::game::GamePhase;

verus! {

/// One stop of the round lifecycle.
#[derive(Clone, Copy, Debug, PartialEq, Eq, Structural)]
pub enum GameState {
    /// Rankings undetermined: deal equally and start with the 3 of Clubs.
    Start,
    /// Rankings determined: the President goes first.
    Restart,
    /// Card play until all but one hand empties.
    Play,
    /// The President picks among the offered options.
    Pick,
    /// The ranked players exchange cards.
    Exchange,
}

/// The stop that follows each stop: both entry points lead into play,
/// and a round then runs play, pick and exchange before it settles.
pub open spec fn next_state(s: GameState) -> GameState {
    match s {
        GameState::Start => GameState::Play,
        GameState::Restart => GameState::Play,
        GameState::Play => GameState::Pick,
        GameState::Pick => GameState::Exchange,
        GameState::Exchange => GameState::Restart,
    }
}

/// The stop a detailed engine phase belongs to.
pub open spec fn state_of_phase(phase: GamePhase) -> GameState {
    match phase {
        GamePhase::Start => GameState::Start,
        GamePhase::Restart => GameState::Restart,
        GamePhase::Turn { .. } => GameState::Play,
        GamePhase::Pick { .. } => GameState::Pick,
        GamePhase::Offer { .. } => GameState::Exchange,
        GamePhase::Exchange { .. } => GameState::Exchange,
    }
}

impl GameState {
    pub fn new() -> (s: GameState)
        ensures
            s == GameState::Start,
    {
        GameState::Start
    }

    pub fn next(self) -> (s: GameState)
        ensures
            s == next_state(self),
    {
        match self {
            GameState::Start => GameState::Play,
            GameState::Restart => GameState::Play,
            GameState::Play => GameState::Pick,
            GameState::Pick => GameState::Exchange,
            GameState::Exchange => GameState::Restart,
        }
    }

    /// The stop a detailed engine phase belongs to.
    pub fn of_phase(phase: &GamePhase) -> (s: GameState)
        ensures
            s == state_of_phase(*phase),
    {
        match phase {
            GamePhase::Start => GameState::Start,
            GamePhase::Restart => GameState::Restart,
            GamePhase::Turn { .. } => GameState::Play,
            GamePhase::Pick { .. } => GameState::Pick,
            GamePhase::Offer { .. } => GameState::Exchange,
            GamePhase::Exchange { .. } => GameState::Exchange,
        }
    }
}

/// Walks the lifecycle endlessly, one stop per step.
#[derive(Debug)]
pub struct GameStateIterator {
    pub state: GameState,
}

impl GameStateIterator {
    pub open spec fn current(self) -> GameState {
        self.state
    }

    pub fn new(start: GameState) -> (it: GameStateIterator)
        ensures
            it.current() == start,
    {
        GameStateIterator { state: start }
    }

    /// Advances to, and returns, the next stop.
    pub fn next(&mut self) -> (s: GameState)
        ensures
            final(self).current() == next_state(old(self).current()),
            s == final(self).current(),
    {
        self.state = self.state.next();
        self.state
    }
}

} // verus!
