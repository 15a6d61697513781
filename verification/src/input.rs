//! Input classification: which kind of input the current phase accepts,
//! so a front end can prompt before submitting.

use vstd::prelude::*;

use crate::card::Card;
use crate::game::GamePhase;

verus! {

/// A discrete input as a front end would assemble it.
#[derive(Debug)]
pub enum Input {
    /// Confirm a (re)start of the game.
    Begin,
    /// A seat plays the given cards.
    PlayCard(usize, Vec<Card>),
    /// A seat picks an option.
    Selection(usize, u32),
}

/// The kind of input the engine is waiting for.
#[derive(Clone, Copy, Debug, PartialEq, Eq, Structural)]
pub enum InputType {
    /// Waiting on game start or restart confirmation.
    Start,
    /// A player needs to play (or pass on) cards.
    PlayCard,
    /// A player needs to select among offered options.
    SelectPile,
}

/// The input kind each phase accepts: begin in `Start`/`Restart`, cards in
/// turns and during the exchange handshake, a selection in the pick stage.
pub open spec fn input_type_of_phase(phase: GamePhase) -> InputType {
    match phase {
        GamePhase::Start => InputType::Start,
        GamePhase::Restart => InputType::Start,
        GamePhase::Pick { .. } => InputType::SelectPile,
        _ => InputType::PlayCard,
    }
}

impl InputType {
    /// Whether the input's kind matches what is awaited; validation of the
    /// input's contents is the engine's job.
    pub fn validate(&self, input: &Input) -> (r: bool)
        ensures
            r == match *self {
                InputType::Start => input is Begin,
                InputType::PlayCard => input is PlayCard,
                InputType::SelectPile => input is Selection,
            },
    {
        match self {
            InputType::Start => matches!(input, Input::Begin),
            InputType::PlayCard => matches!(input, Input::PlayCard(_, _)),
            InputType::SelectPile => matches!(input, Input::Selection(_, _)),
        }
    }

    /// The input kind the given phase accepts.
    pub fn of_phase(phase: &GamePhase) -> (r: InputType)
        ensures
            r == input_type_of_phase(*phase),
    {
        match phase {
            GamePhase::Start => InputType::Start,
            GamePhase::Restart => InputType::Start,
            GamePhase::Pick { .. } => InputType::SelectPile,
            _ => InputType::PlayCard,
        }
    }
}

/// One front-end turn, bundled: the events the last input produced and
/// the kind of input now awaited.
#[derive(Debug)]
pub struct Repl {
    pub events: Vec<crate::event::GameEvent>,
    pub next_input: InputType,
}

impl Repl {
    pub fn new(events: Vec<crate::event::GameEvent>, next_input: InputType) -> (r: Repl)
        ensures
            r.events@ == events@,
            r.next_input == next_input,
    {
        Repl { events, next_input }
    }

    pub fn events(&self) -> (r: &Vec<crate::event::GameEvent>)
        ensures
            r@ == self.events@,
    {
        &self.events
    }

    pub fn input(&self) -> (r: InputType)
        ensures
            r == self.next_input,
    {
        self.next_input
    }
}

} // verus!
