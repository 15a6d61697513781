//! A player: an identity, the hand they hold, and their current social
//! rank.

use vstd::prelude::*;

use crate::card::Card;
use crate::deck::{Hand, play_split};
use crate::rank::Ranking;

verus! {

#[derive(Debug)]
pub struct Player {
    pub name: String,
    pub hand: Hand,
    pub rank: Ranking,
}

impl Player {
    pub fn new(name: String) -> (p: Player)
        ensures
            p.name == name,
            p.hand@ == Seq::<Card>::empty(),
            p.rank == Ranking::Citizen,
    {
        Player::with_rank(name, Ranking::Citizen)
    }

    pub fn with_rank(name: String, rank: Ranking) -> (p: Player)
        ensures
            p.name == name,
            p.hand@ == Seq::<Card>::empty(),
            p.rank == rank,
    {
        Player { name, hand: Hand::new(), rank }
    }

    pub fn get_name(&self) -> (r: &str)
        ensures
            r@ == self.name@,
    {
        self.name.as_str()
    }

    pub fn get_ranking(&self) -> (r: Ranking)
        ensures
            r == self.rank,
    {
        self.rank
    }

    pub fn has(&self, card: &Card) -> (r: bool)
        ensures
            r == self.hand@.contains(*card),
    {
        self.hand.has(card)
    }

    /// Plays the part of `selection` actually held; see `Hand::play`.
    pub fn play(&mut self, selection: &Vec<Card>) -> (r: Option<Hand>)
        ensures
            final(self).hand@ == play_split(old(self).hand@, selection@).0,
            final(self).name == old(self).name,
            final(self).rank == old(self).rank,
            match r {
                Some(h) => h@ == play_split(old(self).hand@, selection@).1 && h@.len() > 0,
                None => play_split(old(self).hand@, selection@).1.len() == 0,
            },
    {
        self.hand.play(selection)
    }

    pub fn add_card(&mut self, card: Card)
        ensures
            final(self).hand@ == old(self).hand@.push(card),
            final(self).name == old(self).name,
            final(self).rank == old(self).rank,
    {
        self.hand.put(card);
    }

    pub fn add_hand(&mut self, hand: Hand)
        ensures
            final(self).hand@ == old(self).hand@ + hand@,
            final(self).name == old(self).name,
            final(self).rank == old(self).rank,
    {
        self.hand.add(hand);
    }
}

} // verus!
