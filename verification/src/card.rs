//! Card and rank model: the four suits, the thirteen display ranks, and the
//! climbing-strength order that governs trick comparisons.
//!
//! A card's *display rank* is the numeral 1..=13 (1 = Ace, 11 = Jack,
//! 12 = Queen, 13 = King) used for parsing and rendering.  Its *strength* is
//! the derived climbing order 3 < 4 < ... < 10 < Jack < Queen < King < Ace < 2
//! used for legality checks.  The two are kept as separate concerns.

use vstd::prelude::*;

verus! {

#[derive(Clone, Copy, Debug, PartialEq, Eq, Structural, Hash)]
pub enum Suit {
    Spades,
    Hearts,
    Clubs,
    Diamonds,
}

/// The four suits in the order used to build decks and expand wildcards.
pub open spec fn all_suits() -> Seq<Suit> {
    seq![Suit::Spades, Suit::Hearts, Suit::Clubs, Suit::Diamonds]
}

impl Suit {
    pub fn all() -> (r: Vec<Suit>)
        ensures
            r@ == all_suits(),
    {
        let mut v: Vec<Suit> = Vec::new();
        v.push(Suit::Spades);
        v.push(Suit::Hearts);
        v.push(Suit::Clubs);
        v.push(Suit::Diamonds);
        proof {
            assert(v@ =~= all_suits());
        }
        v
    }
}

/// An immutable card value.  `rank` is the display rank, always in 1..=13.
#[derive(Clone, Copy, Debug, PartialEq, Eq, Structural, Hash)]
pub struct Card {
    pub rank: u8,
    pub suit: Suit,
}

/// Climbing strength of a display rank: 3 is weakest (0), then 4..10, the
/// face cards, the Ace, and finally 2 as the strongest single card (12).
pub open spec fn strength(rank: int) -> int {
    if rank >= 3 {
        rank - 3
    } else {
        rank + 10
    }
}

/// Result of comparing two cards by climbing strength.
#[derive(Clone, Copy, Debug, PartialEq, Eq, Structural)]
pub enum RankOrder {
    Less,
    Equal,
    Greater,
}

/// Strength comparison of two cards; suit never participates.
pub open spec fn spec_compare(a: Card, b: Card) -> RankOrder {
    if strength(a.rank as int) < strength(b.rank as int) {
        RankOrder::Less
    } else if strength(a.rank as int) == strength(b.rank as int) {
        RankOrder::Equal
    } else {
        RankOrder::Greater
    }
}

/// The four cards of one display rank, one per suit, in suit order.
pub open spec fn rank_cards(rank: u8) -> Seq<Card> {
    all_suits().map(|i: int, s: Suit| Card { rank, suit: s })
}

impl Card {
    pub open spec fn valid(self) -> bool {
        1 <= self.rank <= 13
    }

    pub fn new(rank: u8, suit: Suit) -> (c: Card)
        ensures
            c == (Card { rank, suit }),
    {
        Card { rank, suit }
    }

    pub fn is_rank(&self, rank: u8) -> (r: bool)
        ensures
            r == (self.rank == rank),
    {
        self.rank == rank
    }

    pub fn is_suit(&self, suit: Suit) -> (r: bool)
        ensures
            r == (self.suit == suit),
    {
        self.suit == suit
    }

    /// Climbing strength of this card, as an integer 0..=12.
    pub fn strength(&self) -> (s: u8)
        requires
            self.valid(),
        ensures
            s as int == strength(self.rank as int),
    {
        if self.rank >= 3 {
            self.rank - 3
        } else {
            self.rank + 10
        }
    }

    /// Compare two cards by climbing strength only.
    pub fn compare(&self, other: &Card) -> (r: RankOrder)
        requires
            self.valid(),
            other.valid(),
        ensures
            r == spec_compare(*self, *other),
    {
        let a = self.strength();
        let b = other.strength();
        if a < b {
            RankOrder::Less
        } else if a == b {
            RankOrder::Equal
        } else {
            RankOrder::Greater
        }
    }
}

/// All four cards of the given display rank, one per suit; supports
/// wildcard-by-rank plays.
pub fn all_cards_of_rank(rank: u8) -> (r: Vec<Card>)
    ensures
        r@ == rank_cards(rank),
{
    let mut v: Vec<Card> = Vec::new();
    v.push(Card { rank, suit: Suit::Spades });
    v.push(Card { rank, suit: Suit::Hearts });
    v.push(Card { rank, suit: Suit::Clubs });
    v.push(Card { rank, suit: Suit::Diamonds });
    proof {
        assert(v@ =~= rank_cards(rank));
    }
    v
}

/// The card whose holder opens the very first round.
pub open spec fn three_of_clubs() -> Card {
    Card { rank: 3, suit: Suit::Clubs }
}

/// The climbing order is total: 2 outranks the Ace, the Ace outranks the
/// King, and so on down the chain to 3, with every display rank assigned a
/// distinct strength.
pub proof fn lemma_climbing_chain()
    ensures
        strength(2) > strength(1),
        strength(1) > strength(13),
        strength(13) > strength(12),
        strength(12) > strength(11),
        strength(11) > strength(10),
        strength(10) > strength(9),
        strength(9) > strength(8),
        strength(8) > strength(7),
        strength(7) > strength(6),
        strength(6) > strength(5),
        strength(5) > strength(4),
        strength(4) > strength(3),
{
}

/// `compare` is a total order on cards by strength: it is reflexive on
/// equal strengths, antisymmetric, and transitive.
pub proof fn lemma_compare_total_order(a: Card, b: Card, c: Card)
    requires
        a.valid(),
        b.valid(),
        c.valid(),
    ensures
        spec_compare(a, b) is Equal <==> strength(a.rank as int) == strength(b.rank as int),
        spec_compare(a, b) is Less <==> spec_compare(b, a) is Greater,
        spec_compare(a, b) is Equal <==> spec_compare(b, a) is Equal,
        spec_compare(a, b) is Less && spec_compare(b, c) is Less ==> spec_compare(a, c) is Less,
        spec_compare(a, b) is Less || spec_compare(a, b) is Equal || spec_compare(a, b) is Greater,
{
}

/// Distinct display ranks always have distinct strengths, so strength
/// equality is the same relation as display-rank equality.
pub proof fn lemma_strength_injective(a: int, b: int)
    requires
        1 <= a <= 13,
        1 <= b <= 13,
    ensures
        strength(a) == strength(b) <==> a == b,
{
}

} // verus!
