//! Social ranking: the ordered finish-position labels assigned as players
//! empty their hands.  Fewer remaining cards at round end means a higher
//! rank; the first player out is President, the last one left is Scum.

use vstd::prelude::*;

verus! {

#[derive(Clone, Copy, Debug, PartialEq, Eq, PartialOrd, Ord, Structural, Hash)]
pub enum Ranking {
    President,
    VicePresident,
    Citizen,
    ViceScum,
    Scum,
}

/// The social rank of a player, as the data model names it.
pub type SocialRank = Ranking;

/// Position of a rank in the social order: President highest (0), Scum
/// lowest (4).
pub open spec fn rank_level(r: Ranking) -> int {
    match r {
        Ranking::President => 0,
        Ranking::VicePresident => 1,
        Ranking::Citizen => 2,
        Ranking::ViceScum => 3,
        Ranking::Scum => 4,
    }
}

/// The rank earned by finishing in position `pos` (0-based) among `n`
/// players: first out is President, last is Scum; the vice titles exist
/// only at tables of four or more, and everyone else is a Citizen.
pub open spec fn rank_for_position(pos: int, n: int) -> Ranking {
    if pos == 0 {
        Ranking::President
    } else if pos == n - 1 {
        Ranking::Scum
    } else if pos == 1 && n >= 4 {
        Ranking::VicePresident
    } else if pos == n - 2 && n >= 4 {
        Ranking::ViceScum
    } else {
        Ranking::Citizen
    }
}

impl Ranking {
    /// Position of this rank in the social order; lower is higher standing.
    pub fn level(&self) -> (r: u8)
        ensures
            r as int == rank_level(*self),
    {
        match self {
            Ranking::President => 0,
            Ranking::VicePresident => 1,
            Ranking::Citizen => 2,
            Ranking::ViceScum => 3,
            Ranking::Scum => 4,
        }
    }

    /// Human-readable label.
    pub fn label(&self) -> (r: &'static str)
        ensures
            r@ == match *self {
                Ranking::President => "President"@,
                Ranking::VicePresident => "Vice President"@,
                Ranking::Citizen => "Citizen"@,
                Ranking::ViceScum => "Vice Scum"@,
                Ranking::Scum => "Scum"@,
            },
    {
        match self {
            Ranking::President => "President",
            Ranking::VicePresident => "Vice President",
            Ranking::Citizen => "Citizen",
            Ranking::ViceScum => "Vice Scum",
            Ranking::Scum => "Scum",
        }
    }
}

impl Default for Ranking {
    /// Players start as plain Citizens until a round assigns real ranks.
    fn default() -> (r: Ranking)
        ensures
            r == Ranking::Citizen,
    {
        Ranking::Citizen
    }
}

/// The rank earned by finishing in position `pos` among `n` players.
pub fn rank_of_position(pos: usize, n: usize) -> (r: Ranking)
    requires
        1 <= n,
        pos < n,
    ensures
        r == rank_for_position(pos as int, n as int),
{
    if pos == 0 {
        Ranking::President
    } else if pos == n - 1 {
        Ranking::Scum
    } else if pos == 1 && n >= 4 {
        Ranking::VicePresident
    } else if pos == n - 2 && n >= 4 {
        Ranking::ViceScum
    } else {
        Ranking::Citizen
    }
}

} // verus!
