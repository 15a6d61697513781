//! Card-token grammar: the textual form `<rank><suit>` (rank `1`..`13` or
//! `A`/`J`/`Q`/`K`, suit letter `S|H|C|D` in either case or a suit glyph),
//! or `<rank>*` meaning "any suit of that rank currently held".  Tokens are
//! whitespace-trimmed; anything else, including trailing characters, is
//! rejected.
//!
//! The grammar is given as a relation `token_means` between a character
//! sequence and a parsed selection; `spec_parse` is its (unique) functional
//! form, and the executable parser is proved to agree with it exactly.

use vstd::prelude::*;

use crate::card::{Card, Suit};

verus! {

/// A parsed card token: a concrete card, or a rank wildcard to be resolved
/// against the acting player's hand.
#[derive(Clone, Copy, Debug, PartialEq, Eq, Structural)]
pub enum CardSel {
    Exact(Card),
    AnyOfRank(u8),
}

/// A token that does not match the card grammar.
#[derive(Clone, Copy, Debug, PartialEq, Eq, Structural)]
pub enum ParseError {
    BadToken,
}

pub open spec fn is_ws_char(c: char) -> bool {
    c == ' ' || c == '\t' || c == '\r' || c == '\n'
}

/// Suit letter (either case) or glyph.
pub open spec fn suit_of_char(c: char) -> Option<Suit> {
    if c == 'S' || c == 's' || c == '♠' {
        Some(Suit::Spades)
    } else if c == 'H' || c == 'h' || c == '♥' {
        Some(Suit::Hearts)
    } else if c == 'C' || c == 'c' || c == '♣' {
        Some(Suit::Clubs)
    } else if c == 'D' || c == 'd' || c == '♦' {
        Some(Suit::Diamonds)
    } else {
        None
    }
}

/// Display-rank token: the numerals `1`..`13`, or a face letter in either
/// case (`A` = 1, `J` = 11, `Q` = 12, `K` = 13).
pub open spec fn rank_token_value(s: Seq<char>) -> Option<u8> {
    if s.len() == 1 {
        let c = s[0];
        if c == 'A' || c == 'a' || c == '1' {
            Some(1u8)
        } else if c == '2' {
            Some(2u8)
        } else if c == '3' {
            Some(3u8)
        } else if c == '4' {
            Some(4u8)
        } else if c == '5' {
            Some(5u8)
        } else if c == '6' {
            Some(6u8)
        } else if c == '7' {
            Some(7u8)
        } else if c == '8' {
            Some(8u8)
        } else if c == '9' {
            Some(9u8)
        } else if c == 'J' || c == 'j' {
            Some(11u8)
        } else if c == 'Q' || c == 'q' {
            Some(12u8)
        } else if c == 'K' || c == 'k' {
            Some(13u8)
        } else {
            None
        }
    } else if s.len() == 2 {
        if s[0] == '1' {
            if s[1] == '0' {
                Some(10u8)
            } else if s[1] == '1' {
                Some(11u8)
            } else if s[1] == '2' {
                Some(12u8)
            } else if s[1] == '3' {
                Some(13u8)
            } else {
                None
            }
        } else {
            None
        }
    } else {
        None
    }
}

/// The trimmed core of a token: a rank token followed by one suit character
/// or the wildcard star.
pub open spec fn token_core(t: Seq<char>, sel: CardSel) -> bool {
    t.len() >= 2 && match sel {
        CardSel::Exact(card) => suit_of_char(t.last()) == Some(card.suit)
            && rank_token_value(t.drop_last()) == Some(card.rank),
        CardSel::AnyOfRank(rank) => t.last() == '*' && rank_token_value(t.drop_last()) == Some(
            rank,
        ),
    }
}

/// `s` splits into leading whitespace, the core `s[i..j)`, and trailing
/// whitespace.
pub open spec fn ws_frame(s: Seq<char>, i: int, j: int) -> bool {
    &&& 0 <= i < j <= s.len()
    &&& forall|k: int| 0 <= k < i ==> is_ws_char(s[k])
    &&& forall|k: int| j <= k < s.len() ==> is_ws_char(s[k])
}

/// The token grammar, as a relation: `s` reads as the selection `sel`.
pub open spec fn token_means(s: Seq<char>, sel: CardSel) -> bool {
    exists|i: int, j: int| ws_frame(s, i, j) && token_core(s.subrange(i, j), sel)
}

/// Functional form of the grammar; well defined because at most one
/// selection matches any string (see `lemma_token_unique`).
pub open spec fn spec_parse(s: Seq<char>) -> Option<CardSel> {
    if exists|sel: CardSel| token_means(s, sel) {
        Some(choose|sel: CardSel| token_means(s, sel))
    } else {
        None
    }
}

/// A matched core starts and ends with a non-whitespace character.
proof fn lemma_core_ends_non_ws(t: Seq<char>, sel: CardSel)
    requires
        token_core(t, sel),
    ensures
        !is_ws_char(t[0]),
        !is_ws_char(t[t.len() - 1]),
{
    assert(t.drop_last()[0] == t[0]);
}

/// Two whitespace frames whose cores have non-whitespace endpoints coincide.
proof fn lemma_frame_unique(s: Seq<char>, i1: int, j1: int, i2: int, j2: int)
    requires
        ws_frame(s, i1, j1),
        ws_frame(s, i2, j2),
        !is_ws_char(s[i1]),
        !is_ws_char(s[j1 - 1]),
        !is_ws_char(s[i2]),
        !is_ws_char(s[j2 - 1]),
    ensures
        i1 == i2,
        j1 == j2,
{
}

/// The grammar is unambiguous: a string reads as at most one selection.
pub proof fn lemma_token_unique(s: Seq<char>, a: CardSel, b: CardSel)
    requires
        token_means(s, a),
        token_means(s, b),
    ensures
        a == b,
{
    let (ia, ja) = choose|i: int, j: int| ws_frame(s, i, j) && token_core(
        s.subrange(i, j),
        a,
    );
    let (ib, jb) = choose|i: int, j: int| ws_frame(s, i, j) && token_core(
        s.subrange(i, j),
        b,
    );
    let ta = s.subrange(ia, ja);
    let tb = s.subrange(ib, jb);
    lemma_core_ends_non_ws(ta, a);
    lemma_core_ends_non_ws(tb, b);
    lemma_frame_unique(s, ia, ja, ib, jb);
    assert(ta =~= tb);
}

/// Rank tokens only ever denote a display rank in 1..=13.
pub proof fn lemma_rank_token_bounds(s: Seq<char>, r: u8)
    requires
        rank_token_value(s) == Some(r),
    ensures
        1 <= r <= 13,
{
}

/// A token that reads as a concrete card reads as a valid one.
pub proof fn lemma_token_card_valid(s: Seq<char>, card: Card)
    requires
        token_means(s, CardSel::Exact(card)),
    ensures
        card.valid(),
{
    let (i, j) = choose|i: int, j: int| ws_frame(s, i, j) && token_core(
        s.subrange(i, j),
        CardSel::Exact(card),
    );
    lemma_rank_token_bounds(s.subrange(i, j).drop_last(), card.rank);
}

/// Canonical numeral for a display rank.
pub open spec fn rank_chars(rank: u8) -> Seq<char> {
    if rank == 1 {
        seq!['1']
    } else if rank == 2 {
        seq!['2']
    } else if rank == 3 {
        seq!['3']
    } else if rank == 4 {
        seq!['4']
    } else if rank == 5 {
        seq!['5']
    } else if rank == 6 {
        seq!['6']
    } else if rank == 7 {
        seq!['7']
    } else if rank == 8 {
        seq!['8']
    } else if rank == 9 {
        seq!['9']
    } else if rank == 10 {
        seq!['1', '0']
    } else if rank == 11 {
        seq!['1', '1']
    } else if rank == 12 {
        seq!['1', '2']
    } else if rank == 13 {
        seq!['1', '3']
    } else {
        seq![]
    }
}

/// Canonical ASCII letter for a suit.
pub open spec fn suit_char_of(suit: Suit) -> char {
    match suit {
        Suit::Spades => 'S',
        Suit::Hearts => 'H',
        Suit::Clubs => 'C',
        Suit::Diamonds => 'D',
    }
}

/// Canonical token text of a card: its numeral followed by its suit letter.
pub open spec fn render_card(card: Card) -> Seq<char> {
    rank_chars(card.rank).push(suit_char_of(card.suit))
}

/// The canonical text of a valid card reads back as exactly that card:
/// `parse(render(card)) == card`.
pub proof fn lemma_parse_render_round_trip(card: Card)
    requires
        card.valid(),
    ensures
        spec_parse(render_card(card)) == Some(CardSel::Exact(card)),
{
    let s = render_card(card);
    let sel = CardSel::Exact(card);
    assert(s.drop_last() =~= rank_chars(card.rank));
    assert(rank_token_value(rank_chars(card.rank)) == Some(card.rank));
    assert(suit_of_char(suit_char_of(card.suit)) == Some(card.suit));
    assert(token_core(s, sel));
    assert(s.subrange(0, s.len() as int) =~= s);
    assert(ws_frame(s, 0, s.len() as int) && token_core(
        s.subrange(0, s.len() as int),
        sel,
    ));
    assert(token_means(s, sel));
    let picked = choose|x: CardSel| token_means(s, x);
    lemma_token_unique(s, picked, sel);
}

/// Renders the canonical token for this card.
pub fn render_token(card: &Card) -> (r: String)
    requires
        card.valid(),
    ensures
        r@ == render_card(*card),
{
    let mut out = String::new();
    let rank_lit: &str = match card.rank {
        1 => "1",
        2 => "2",
        3 => "3",
        4 => "4",
        5 => "5",
        6 => "6",
        7 => "7",
        8 => "8",
        9 => "9",
        10 => "10",
        11 => "11",
        12 => "12",
        13 => "13",
        _ => "",
    };
    proof {
        reveal_strlit("1");
        reveal_strlit("2");
        reveal_strlit("3");
        reveal_strlit("4");
        reveal_strlit("5");
        reveal_strlit("6");
        reveal_strlit("7");
        reveal_strlit("8");
        reveal_strlit("9");
        reveal_strlit("10");
        reveal_strlit("11");
        reveal_strlit("12");
        reveal_strlit("13");
        assert(rank_lit@ == rank_chars(card.rank));
    }
    out.append(rank_lit);
    let suit_lit: &str = match card.suit {
        Suit::Spades => "S",
        Suit::Hearts => "H",
        Suit::Clubs => "C",
        Suit::Diamonds => "D",
    };
    proof {
        reveal_strlit("S");
        reveal_strlit("H");
        reveal_strlit("C");
        reveal_strlit("D");
        assert(suit_lit@ == seq![suit_char_of(card.suit)]);
    }
    out.append(suit_lit);
    proof {
        assert(out@ =~= render_card(*card));
    }
    out
}

impl Card {
    /// Parses a token that must name one concrete card; a wildcard or an
    /// unreadable token is rejected.
    pub fn try_from(s: &str) -> (r: Result<Card, ParseError>)
        ensures
            match r {
                Ok(c) => spec_parse(s@) == Some(CardSel::Exact(c)),
                Err(_) => !(spec_parse(s@) matches Some(CardSel::Exact(c2))),
            },
    {
        match parse_token(s) {
            Ok(CardSel::Exact(c)) => Ok(c),
            _ => Err(ParseError::BadToken),
        }
    }
}

fn is_ws(c: char) -> (r: bool)
    ensures
        r == is_ws_char(c),
{
    c == ' ' || c == '\t' || c == '\r' || c == '\n'
}

fn suit_char(c: char) -> (r: Option<Suit>)
    ensures
        r == suit_of_char(c),
{
    if c == 'S' || c == 's' || c == '♠' {
        Some(Suit::Spades)
    } else if c == 'H' || c == 'h' || c == '♥' {
        Some(Suit::Hearts)
    } else if c == 'C' || c == 'c' || c == '♣' {
        Some(Suit::Clubs)
    } else if c == 'D' || c == 'd' || c == '♦' {
        Some(Suit::Diamonds)
    } else {
        None
    }
}

/// Parses the rank token occupying `s[i..j)`.
fn parse_rank_chars(s: &str, i: usize, j: usize) -> (r: Option<u8>)
    requires
        i <= j <= s@.len(),
    ensures
        r == rank_token_value(s@.subrange(i as int, j as int)),
{
    let ghost t = s@.subrange(i as int, j as int);
    if j - i == 1 {
        let c = s.get_char(i);
        assert(t[0] == s@[i as int]);
        match c {
            'A' | 'a' | '1' => Some(1),
            '2' => Some(2),
            '3' => Some(3),
            '4' => Some(4),
            '5' => Some(5),
            '6' => Some(6),
            '7' => Some(7),
            '8' => Some(8),
            '9' => Some(9),
            'J' | 'j' => Some(11),
            'Q' | 'q' => Some(12),
            'K' | 'k' => Some(13),
            _ => None,
        }
    } else if j - i == 2 {
        let c0 = s.get_char(i);
        let c1 = s.get_char(i + 1);
        assert(t[0] == s@[i as int] && t[1] == s@[i as int + 1]);
        if c0 == '1' {
            match c1 {
                '0' => Some(10),
                '1' => Some(11),
                '2' => Some(12),
                '3' => Some(13),
                _ => None,
            }
        } else {
            None
        }
    } else {
        None
    }
}

/// Given the computed trim bounds, any reading of `s` must use exactly the
/// frame `(i, j)`.
proof fn lemma_forced_frame(s: Seq<char>, sel: CardSel, i: int, j: int)
    requires
        token_means(s, sel),
        0 <= i <= s.len(),
        forall|k: int| 0 <= k < i ==> is_ws_char(s[k]),
        i == s.len() || !is_ws_char(s[i]),
        i <= j <= s.len(),
        forall|k: int| j <= k < s.len() ==> is_ws_char(s[k]),
        j == i || !is_ws_char(s[j - 1]),
    ensures
        ws_frame(s, i, j),
        token_core(s.subrange(i, j), sel),
{
    let (i2, j2) = choose|i2: int, j2: int| ws_frame(s, i2, j2) && token_core(
        s.subrange(i2, j2),
        sel,
    );
    let t = s.subrange(i2, j2);
    lemma_core_ends_non_ws(t, sel);
    assert(!is_ws_char(s[i2]));
    assert(!is_ws_char(s[j2 - 1]));
    assert(i2 == i) by {
        if i2 < i {
            assert(is_ws_char(s[i2]));
        } else if i2 > i {
            assert(is_ws_char(s[i]));
        }
    }
    assert(j2 == j) by {
        if j2 > j {
            assert(is_ws_char(s[j2 - 1]));
        } else if j2 < j {
            assert(is_ws_char(s[j - 1]));
        }
    }
}

/// Parse one whitespace-trimmed card token.  Returns exactly what the
/// grammar denotes, and an error precisely when the grammar matches nothing.
pub fn parse_token(s: &str) -> (r: Result<CardSel, ParseError>)
    ensures
        match r {
            Ok(sel) => spec_parse(s@) == Some(sel),
            Err(_) => spec_parse(s@) == None::<CardSel>,
        },
{
    let n = s.unicode_len();
    let mut i: usize = 0;
    while i < n && is_ws(s.get_char(i))
        invariant
            0 <= i <= n,
            n == s@.len(),
            forall|k: int| 0 <= k < i ==> is_ws_char(s@[k]),
        decreases n - i,
    {
        i += 1;
    }
    let mut j: usize = n;
    while j > i && is_ws(s.get_char(j - 1))
        invariant
            i <= j <= n,
            n == s@.len(),
            forall|k: int| j <= k < n ==> is_ws_char(s@[k]),
        decreases j,
    {
        j -= 1;
    }
    let ghost core = s@.subrange(i as int, j as int);
    if j - i < 2 {
        proof {
            assert forall|sel: CardSel| !token_means(s@, sel) by {
                if token_means(s@, sel) {
                    lemma_forced_frame(s@, sel, i as int, j as int);
                }
            }
        }
        return Err(ParseError::BadToken);
    }
    let last = s.get_char(j - 1);
    proof {
        assert(core.last() == s@[j - 1]);
        assert(core.drop_last() =~= s@.subrange(i as int, j as int - 1));
    }
    if last == '*' {
        match parse_rank_chars(s, i, j - 1) {
            Some(rank) => {
                let sel = CardSel::AnyOfRank(rank);
                proof {
                    assert(token_core(core, sel));
                    assert(token_means(s@, sel)) by {
                        assert(ws_frame(s@, i as int, j as int) && token_core(
                            s@.subrange(i as int, j as int),
                            sel,
                        ));
                    }
                    let picked = choose|x: CardSel| token_means(s@, x);
                    lemma_token_unique(s@, picked, sel);
                }
                Ok(sel)
            },
            None => {
                proof {
                    assert forall|sel: CardSel| !token_means(s@, sel) by {
                        if token_means(s@, sel) {
                            lemma_forced_frame(s@, sel, i as int, j as int);
                        }
                    }
                }
                Err(ParseError::BadToken)
            },
        }
    } else {
        match suit_char(last) {
            Some(suit) => {
                match parse_rank_chars(s, i, j - 1) {
                    Some(rank) => {
                        let sel = CardSel::Exact(Card { rank, suit });
                        proof {
                            assert(token_core(core, sel));
                            assert(token_means(s@, sel)) by {
                                assert(ws_frame(s@, i as int, j as int) && token_core(
                                    s@.subrange(i as int, j as int),
                                    sel,
                                ));
                            }
                            let picked = choose|x: CardSel| token_means(s@, x);
                            lemma_token_unique(s@, picked, sel);
                        }
                        Ok(sel)
                    },
                    None => {
                        proof {
                            assert forall|sel: CardSel| !token_means(s@, sel) by {
                                if token_means(s@, sel) {
                                    lemma_forced_frame(s@, sel, i as int, j as int);
                                }
                            }
                        }
                        Err(ParseError::BadToken)
                    },
                }
            },
            None => {
                proof {
                    assert forall|sel: CardSel| !token_means(s@, sel) by {
                        if token_means(s@, sel) {
                            lemma_forced_frame(s@, sel, i as int, j as int);
                        }
                    }
                }
                Err(ParseError::BadToken)
            },
        }
    }
}

} // verus!
