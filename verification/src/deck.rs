//! Card collections: `Deck` (an ordered pile used for dealing and for the
//! trick pile) and `Hand` (the cards belonging to one player).  Both view as
//! a sequence of cards.  The seeded shuffle is the one place the engine calls
//! into the `rand` crate.

use vstd::prelude::*;

use crate::card::{Card, Suit, all_suits};

use rand::SeedableRng;
use rand::seq::SliceRandom;

verus! {

/// One row of a combinatorial deck: every suit of a single display rank.
pub open spec fn rank_row(rank: int, suits: Seq<Suit>) -> Seq<Card> {
    suits.map(|i: int, s: Suit| Card { rank: rank as u8, suit: s })
}

/// Cards of every rank in `lo..hi` crossed with `suits`, rank-major.
pub open spec fn range_deck(lo: int, hi: int, suits: Seq<Suit>) -> Seq<Card>
    decreases hi - lo,
{
    if lo >= hi {
        Seq::empty()
    } else {
        rank_row(lo, suits) + range_deck(lo + 1, hi, suits)
    }
}

/// The full 52-card deck: ranks 1..=13 crossed with the four suits.
pub open spec fn full_deck() -> Seq<Card> {
    range_deck(1, 14, all_suits())
}

pub proof fn lemma_range_deck_snoc(lo: int, hi: int, suits: Seq<Suit>)
    requires
        lo <= hi,
    ensures
        range_deck(lo, hi + 1, suits) =~= range_deck(lo, hi, suits) + rank_row(hi, suits),
    decreases hi - lo,
{
    if lo == hi {
        assert(range_deck(hi, hi + 1, suits) == rank_row(hi, suits) + range_deck(
            hi + 1,
            hi + 1,
            suits,
        ));
        assert(range_deck(hi + 1, hi + 1, suits) == Seq::<Card>::empty());
        assert(range_deck(lo, hi, suits) == Seq::<Card>::empty());
    } else {
        lemma_range_deck_snoc(lo + 1, hi, suits);
        assert(range_deck(lo, hi + 1, suits) == rank_row(lo, suits) + range_deck(
            lo + 1,
            hi + 1,
            suits,
        ));
        assert(range_deck(lo, hi, suits) == rank_row(lo, suits) + range_deck(lo + 1, hi, suits));
    }
}

pub proof fn lemma_range_deck_len(lo: int, hi: int, suits: Seq<Suit>)
    requires
        lo <= hi,
    ensures
        range_deck(lo, hi, suits).len() == (hi - lo) * suits.len(),
    decreases hi - lo,
{
    if lo >= hi {
        assert(range_deck(lo, hi, suits) == Seq::<Card>::empty());
    } else {
        lemma_range_deck_len(lo + 1, hi, suits);
        assert(range_deck(lo, hi, suits) == rank_row(lo, suits) + range_deck(lo + 1, hi, suits));
        assert(suits.len() + (hi - lo - 1) * suits.len() == (hi - lo) * suits.len())
            by (nonlinear_arith);
    }
}

pub proof fn lemma_range_deck_contains(lo: int, hi: int, suits: Seq<Suit>, c: Card)
    requires
        lo <= c.rank < hi,
        suits.contains(c.suit),
    ensures
        range_deck(lo, hi, suits).contains(c),
    decreases hi - lo,
{
    if c.rank == lo {
        let k = choose|k: int| 0 <= k < suits.len() && suits[k] == c.suit;
        assert(rank_row(lo, suits)[k] == c);
        assert(range_deck(lo, hi, suits)[k] == c);
    } else {
        lemma_range_deck_contains(lo + 1, hi, suits, c);
        let row = rank_row(lo, suits);
        let rest = range_deck(lo + 1, hi, suits);
        let k = choose|k: int| 0 <= k < rest.len() && rest[k] == c;
        assert(range_deck(lo, hi, suits)[row.len() + k] == c);
    }
}

/// Every card of a ranked range deck is a valid card.
pub proof fn lemma_range_deck_valid(lo: int, hi: int, suits: Seq<Suit>)
    requires
        1 <= lo,
        hi <= 14,
    ensures
        forall|k: int|
            0 <= k < range_deck(lo, hi, suits).len() ==> (#[trigger] range_deck(
                lo,
                hi,
                suits,
            )[k]).valid(),
    decreases hi - lo,
{
    if lo < hi {
        lemma_range_deck_valid(lo + 1, hi, suits);
        let row = rank_row(lo, suits);
        let rest = range_deck(lo + 1, hi, suits);
        assert(range_deck(lo, hi, suits) == row + rest);
        assert forall|k: int|
            0 <= k < range_deck(lo, hi, suits).len() implies (#[trigger] range_deck(
            lo,
            hi,
            suits,
        )[k]).valid() by {
            if k < row.len() {
                assert(range_deck(lo, hi, suits)[k] == row[k]);
            } else {
                assert(range_deck(lo, hi, suits)[k] == rest[k - row.len()]);
            }
        }
    }
}

/// The full deck has 52 cards and holds every valid card; in particular the
/// 3 of Clubs that opens the first round.
pub proof fn lemma_full_deck(c: Card)
    requires
        c.valid(),
    ensures
        full_deck().len() == 52,
        full_deck().contains(c),
{
    lemma_range_deck_len(1, 14, all_suits());
    assert(all_suits().contains(c.suit)) by {
        match c.suit {
            Suit::Spades => assert(all_suits()[0] == c.suit),
            Suit::Hearts => assert(all_suits()[1] == c.suit),
            Suit::Clubs => assert(all_suits()[2] == c.suit),
            Suit::Diamonds => assert(all_suits()[3] == c.suit),
        }
    }
    lemma_range_deck_contains(1, 14, all_suits(), c);
}

/// What the seeded shuffle returns for a given card sequence and seed; a
/// fixed seed reproduces a fixed order, which makes deals deterministic for
/// testing.
pub uninterp spec fn shuffled(cards: Seq<Card>, seed: u64) -> Seq<Card>;

/// Relies on rand 0.8's `SliceRandom::shuffle` driven by
/// `StdRng::seed_from_u64`: an in-place Fisher-Yates permutation whose swap
/// choices are a function of the seed alone, so the outcome is a permutation
/// of the input determined entirely by the input and the seed.
#[verifier::external_body]
fn shuffle_with_seed(cards: &mut Vec<Card>, seed: u64)
    ensures
        final(cards)@ == shuffled(old(cards)@, seed),
        final(cards)@.to_multiset() == old(cards)@.to_multiset(),
        final(cards)@.len() == old(cards)@.len(),
        forall|c: Card| final(cards)@.contains(c) <==> old(cards)@.contains(c),
{
    let mut rng = rand::rngs::StdRng::seed_from_u64(seed);
    cards.shuffle(&mut rng);
}

/// An ordered pile of cards: the stock being dealt from, or the trick pile.
#[derive(Debug)]
pub struct Deck {
    cards: Vec<Card>,
}

impl View for Deck {
    type V = Seq<Card>;

    closed spec fn view(&self) -> Seq<Card> {
        self.cards@
    }
}

impl Deck {
    pub fn new() -> (d: Deck)
        ensures
            d@ == Seq::<Card>::empty(),
    {
        Deck { cards: Vec::new() }
    }

    pub fn empty() -> (d: Deck)
        ensures
            d@ == Seq::<Card>::empty(),
    {
        Deck::new()
    }

    /// The combinatorial deck of every rank in `lo..hi` and every suit in
    /// `suits`, rank-major, unshuffled.
    pub fn from_range(lo: u8, hi: u8, suits: &Vec<Suit>) -> (d: Deck)
        requires
            lo <= hi,
        ensures
            d@ == range_deck(lo as int, hi as int, suits@),
    {
        let mut cards: Vec<Card> = Vec::new();
        let mut r: u8 = lo;
        while r < hi
            invariant
                lo <= r <= hi,
                cards@ =~= range_deck(lo as int, r as int, suits@),
            decreases hi - r,
        {
            let mut k: usize = 0;
            while k < suits.len()
                invariant
                    0 <= k <= suits@.len(),
                    cards@ =~= range_deck(lo as int, r as int, suits@) + rank_row(
                        r as int,
                        suits@,
                    ).take(k as int),
                decreases suits@.len() - k,
            {
                let c = Card { rank: r, suit: suits[k] };
                cards.push(c);
                proof {
                    assert(rank_row(r as int, suits@).take(k + 1) =~= rank_row(
                        r as int,
                        suits@,
                    ).take(k as int).push(c));
                }
                k += 1;
            }
            proof {
                lemma_range_deck_snoc(lo as int, r as int, suits@);
                assert(rank_row(r as int, suits@).take(suits@.len() as int) =~= rank_row(
                    r as int,
                    suits@,
                ));
            }
            r += 1;
        }
        Deck { cards }
    }

    /// The full 52-card deck, unshuffled.
    pub fn standard() -> (d: Deck)
        ensures
            d@ == full_deck(),
    {
        let suits = Suit::all();
        Deck::from_range(1, 14, &suits)
    }

    pub fn len(&self) -> (n: usize)
        ensures
            n == self@.len(),
    {
        self.cards.len()
    }

    pub fn top(&self) -> (r: Option<&Card>)
        ensures
            match r {
                Some(c) => self@.len() > 0 && *c == self@.last(),
                None => self@.len() == 0,
            },
    {
        if self.cards.len() > 0 {
            Some(&self.cards[self.cards.len() - 1])
        } else {
            None
        }
    }

    pub fn draw(&mut self) -> (r: Option<Card>)
        ensures
            match r {
                Some(c) => old(self)@.len() > 0 && c == old(self)@.last() && final(self)@
                    == old(self)@.drop_last(),
                None => old(self)@.len() == 0 && final(self)@ == old(self)@,
            },
    {
        self.cards.pop()
    }

    pub fn put(&mut self, card: Card)
        ensures
            final(self)@ == old(self)@.push(card),
    {
        self.cards.push(card);
    }

    pub fn to_vec(self) -> (r: Vec<Card>)
        ensures
            r@ == self@,
    {
        self.cards
    }

    /// Read access to the cards, bottom first.
    pub fn cards(&self) -> (r: &Vec<Card>)
        ensures
            r@ == self@,
    {
        &self.cards
    }

    /// Moves the top `count` cards off this deck, keeping their order, or
    /// returns `None` when fewer than `count` remain.
    pub fn deal(&mut self, count: usize) -> (r: Option<Deck>)
        ensures
            match r {
                Some(d) => {
                    &&& count <= old(self)@.len()
                    &&& d@ == old(self)@.subrange(
                        old(self)@.len() - count,
                        old(self)@.len() as int,
                    )
                    &&& final(self)@ == old(self)@.subrange(0, old(self)@.len() - count)
                },
                None => count > old(self)@.len() && final(self)@ == old(self)@,
            },
    {
        let end = self.cards.len();
        if end < count {
            None
        } else {
            let tail = self.cards.split_off(end - count);
            Some(Deck { cards: tail })
        }
    }

    /// Randomly permutes this deck; the order is a function of the deck and
    /// the seed alone.
    pub fn shuffle(&mut self, seed: u64)
        ensures
            final(self)@ == shuffled(old(self)@, seed),
            final(self)@.to_multiset() == old(self)@.to_multiset(),
            final(self)@.len() == old(self)@.len(),
            forall|c: Card| final(self)@.contains(c) <==> old(self)@.contains(c),
    {
        shuffle_with_seed(&mut self.cards, seed);
    }
}

/// `s` with the first occurrence of `c` removed (unchanged when absent).
pub open spec fn remove_first(s: Seq<Card>, c: Card) -> Seq<Card>
    decreases s.len(),
{
    if s.len() == 0 {
        s
    } else if s[0] == c {
        s.drop_first()
    } else {
        seq![s[0]] + remove_first(s.drop_first(), c)
    }
}

/// `s` with one occurrence of each card of `sel` removed, in order.
pub open spec fn remove_seq(s: Seq<Card>, sel: Seq<Card>) -> Seq<Card>
    decreases sel.len(),
{
    if sel.len() == 0 {
        s
    } else {
        remove_seq(remove_first(s, sel[0]), sel.drop_first())
    }
}

/// Splits a hand against a selection: the cards that stay, and the cards of
/// the selection actually present, in selection order.
pub open spec fn play_split(s: Seq<Card>, sel: Seq<Card>) -> (Seq<Card>, Seq<Card>)
    decreases sel.len(),
{
    if sel.len() == 0 {
        (s, Seq::empty())
    } else if s.contains(sel[0]) {
        let rest = play_split(remove_first(s, sel[0]), sel.drop_first());
        (rest.0, seq![sel[0]] + rest.1)
    } else {
        play_split(s, sel.drop_first())
    }
}

pub proof fn lemma_remove_first_len(s: Seq<Card>, c: Card)
    ensures
        s.contains(c) ==> remove_first(s, c).len() == s.len() - 1,
        !s.contains(c) ==> remove_first(s, c) == s,
    decreases s.len(),
{
    if s.len() > 0 && s[0] != c {
        lemma_remove_first_len(s.drop_first(), c);
        assert(s.contains(c) ==> s.drop_first().contains(c)) by {
            if s.contains(c) {
                let k = choose|k: int| 0 <= k < s.len() && s[k] == c;
                assert(s.drop_first()[k - 1] == c);
            }
        }
        assert(s.drop_first().contains(c) ==> s.contains(c)) by {
            if s.drop_first().contains(c) {
                let k = choose|k: int| 0 <= k < s.drop_first().len() && s.drop_first()[k] == c;
                assert(s[k + 1] == c);
            }
        }
        if !s.contains(c) {
            assert(remove_first(s, c) =~= s);
        }
    }
}

/// Removing one card never disturbs the membership of a different card.
pub proof fn lemma_remove_first_other(s: Seq<Card>, c: Card, b: Card)
    requires
        b != c,
    ensures
        remove_first(s, c).contains(b) == s.contains(b),
    decreases s.len(),
{
    if s.len() == 0 {
    } else if s[0] == c {
        assert forall|k: int| 0 <= k < s.len() && s[k] == b implies s.drop_first().contains(
            b,
        ) by {
            assert(s.drop_first()[k - 1] == b);
        }
        assert(s.contains(b) == s.drop_first().contains(b)) by {
            if s.drop_first().contains(b) {
                let k = choose|k: int| 0 <= k < s.drop_first().len() && s.drop_first()[k] == b;
                assert(s[k + 1] == b);
            }
        }
    } else {
        lemma_remove_first_other(s.drop_first(), c, b);
        let r = seq![s[0]] + remove_first(s.drop_first(), c);
        assert(r.contains(b) == (s[0] == b || remove_first(s.drop_first(), c).contains(b))) by {
            assert(r[0] == s[0]);
            if r.contains(b) {
                let k = choose|k: int| 0 <= k < r.len() && r[k] == b;
                if k > 0 {
                    assert(remove_first(s.drop_first(), c)[k - 1] == b);
                }
            }
            if remove_first(s.drop_first(), c).contains(b) {
                let k = choose|k: int|
                    0 <= k < remove_first(s.drop_first(), c).len() && remove_first(
                        s.drop_first(),
                        c,
                    )[k] == b;
                assert(r[k + 1] == b);
            }
        }
        assert(s.contains(b) == (s[0] == b || s.drop_first().contains(b))) by {
            if s.contains(b) {
                let k = choose|k: int| 0 <= k < s.len() && s[k] == b;
                if k > 0 {
                    assert(s.drop_first()[k - 1] == b);
                }
            }
            if s.drop_first().contains(b) {
                let k = choose|k: int| 0 <= k < s.drop_first().len() && s.drop_first()[k] == b;
                assert(s[k + 1] == b);
            }
        }
    }
}

/// Removing the element at its first index is `remove_first`.
proof fn lemma_remove_first_at(s: Seq<Card>, c: Card, idx: int)
    requires
        0 <= idx < s.len(),
        s[idx] == c,
        forall|k: int| 0 <= k < idx ==> s[k] != c,
    ensures
        remove_first(s, c) =~= s.remove(idx),
    decreases idx,
{
    if idx == 0 {
        assert(remove_first(s, c) == s.drop_first());
        assert(s.drop_first() =~= s.remove(0));
    } else {
        lemma_remove_first_at(s.drop_first(), c, idx - 1);
        assert(remove_first(s, c) == seq![s[0]] + remove_first(s.drop_first(), c));
        assert(seq![s[0]] + s.drop_first().remove(idx - 1) =~= s.remove(idx));
    }
}

/// Removing a selection of distinct, held cards shrinks the hand by exactly
/// the selection's size and never disturbs cards outside the selection.
pub proof fn lemma_remove_seq_props(s: Seq<Card>, sel: Seq<Card>)
    requires
        sel.no_duplicates(),
        forall|k: int| 0 <= k < sel.len() ==> s.contains(#[trigger] sel[k]),
    ensures
        remove_seq(s, sel).len() == s.len() - sel.len(),
        forall|b: Card| !sel.contains(b) ==> remove_seq(s, sel).contains(b) == s.contains(b),
    decreases sel.len(),
{
    if sel.len() > 0 {
        let c = sel[0];
        let s1 = remove_first(s, c);
        lemma_remove_first_len(s, c);
        assert forall|k: int| 0 <= k < sel.drop_first().len() implies s1.contains(
            #[trigger] sel.drop_first()[k],
        ) by {
            assert(sel.drop_first()[k] == sel[k + 1]);
            assert(sel[k + 1] != c);
            lemma_remove_first_other(s, c, sel[k + 1]);
        }
        lemma_remove_seq_props(s1, sel.drop_first());
        assert forall|b: Card| !sel.contains(b) implies remove_seq(s, sel).contains(b)
            == s.contains(b) by {
            assert(b != sel[0]);
            assert(!sel.drop_first().contains(b)) by {
                if sel.drop_first().contains(b) {
                    let k = choose|k: int|
                        0 <= k < sel.drop_first().len() && sel.drop_first()[k] == b;
                    assert(sel[k + 1] == b);
                }
            }
            lemma_remove_first_other(s, c, b);
        }
    }
}

/// Whatever remains after a removal was already in the hand.
pub proof fn lemma_remove_first_elements(s: Seq<Card>, c: Card)
    ensures
        forall|j: int|
            0 <= j < remove_first(s, c).len() ==> s.contains(#[trigger] remove_first(s, c)[j]),
    decreases s.len(),
{
    let r = remove_first(s, c);
    if s.len() == 0 {
    } else if s[0] == c {
        assert forall|j: int| 0 <= j < r.len() implies s.contains(#[trigger] r[j]) by {
            assert(r[j] == s[j + 1]);
        }
    } else {
        lemma_remove_first_elements(s.drop_first(), c);
        assert forall|j: int| 0 <= j < r.len() implies s.contains(#[trigger] r[j]) by {
            if j == 0 {
                assert(r[0] == s[0]);
            } else {
                assert(r[j] == remove_first(s.drop_first(), c)[j - 1]);
                assert(s.drop_first().contains(r[j]));
                let k = choose|k: int|
                    0 <= k < s.drop_first().len() && s.drop_first()[k] == r[j];
                assert(s[k + 1] == r[j]);
            }
        }
    }
}

/// Whatever remains after removing a whole selection was already in the
/// hand.
pub proof fn lemma_remove_seq_elements(s: Seq<Card>, sel: Seq<Card>)
    ensures
        forall|j: int|
            0 <= j < remove_seq(s, sel).len() ==> s.contains(#[trigger] remove_seq(s, sel)[j]),
    decreases sel.len(),
{
    if sel.len() > 0 {
        let s1 = remove_first(s, sel[0]);
        lemma_remove_first_elements(s, sel[0]);
        lemma_remove_seq_elements(s1, sel.drop_first());
        let r = remove_seq(s, sel);
        assert forall|j: int| 0 <= j < r.len() implies s.contains(#[trigger] r[j]) by {
            assert(remove_seq(s1, sel.drop_first()) == r);
            assert(s1.contains(r[j]));
            let k = choose|k: int| 0 <= k < s1.len() && s1[k] == r[j];
            assert(s.contains(s1[k]));
        }
    }
}

/// How `play_split` grows when one more card is appended to the selection.
pub proof fn lemma_play_split_snoc(s: Seq<Card>, sel: Seq<Card>, c: Card)
    ensures
        ({
            let pre = play_split(s, sel);
            play_split(s, sel.push(c)) == if pre.0.contains(c) {
                (remove_first(pre.0, c), pre.1.push(c))
            } else {
                pre
            }
        }),
    decreases sel.len(),
{
    let pushed = sel.push(c);
    if sel.len() == 0 {
        assert(pushed[0] == c);
        assert(pushed.drop_first() =~= Seq::<Card>::empty());
        assert(play_split(s, sel) == (s, Seq::<Card>::empty()));
        if s.contains(c) {
            let rest = play_split(remove_first(s, c), pushed.drop_first());
            assert(rest == (remove_first(s, c), Seq::<Card>::empty()));
            assert(play_split(s, pushed) == (rest.0, seq![c] + rest.1));
            assert(seq![c] + Seq::<Card>::empty() =~= Seq::<Card>::empty().push(c));
        } else {
            assert(play_split(s, pushed) == play_split(s, pushed.drop_first()));
        }
    } else {
        assert(pushed[0] == sel[0]);
        assert(pushed.drop_first() =~= sel.drop_first().push(c));
        if s.contains(sel[0]) {
            let s1 = remove_first(s, sel[0]);
            lemma_play_split_snoc(s1, sel.drop_first(), c);
            let inner = play_split(s1, sel.drop_first());
            let pre = play_split(s, sel);
            assert(pre == (inner.0, seq![sel[0]] + inner.1));
            let rest = play_split(s1, pushed.drop_first());
            assert(play_split(s, pushed) == (rest.0, seq![sel[0]] + rest.1));
            if inner.0.contains(c) {
                assert(rest == (remove_first(inner.0, c), inner.1.push(c)));
                assert(seq![sel[0]] + inner.1.push(c) =~= (seq![sel[0]] + inner.1).push(c));
            } else {
                assert(rest == inner);
            }
        } else {
            lemma_play_split_snoc(s, sel.drop_first(), c);
            assert(play_split(s, pushed) == play_split(s, pushed.drop_first()));
            assert(play_split(s, sel) == play_split(s, sel.drop_first()));
        }
    }
}

/// When the selection is distinct and entirely held, playing it removes
/// exactly the selection.
pub proof fn lemma_play_split_all_held(s: Seq<Card>, sel: Seq<Card>)
    requires
        sel.no_duplicates(),
        forall|k: int| 0 <= k < sel.len() ==> s.contains(#[trigger] sel[k]),
    ensures
        play_split(s, sel) == (remove_seq(s, sel), sel),
    decreases sel.len(),
{
    if sel.len() == 0 {
        assert(sel =~= Seq::<Card>::empty());
    } else {
        let c = sel[0];
        let s1 = remove_first(s, c);
        assert forall|k: int| 0 <= k < sel.drop_first().len() implies s1.contains(
            #[trigger] sel.drop_first()[k],
        ) by {
            assert(sel.drop_first()[k] == sel[k + 1]);
            lemma_remove_first_other(s, c, sel[k + 1]);
        }
        lemma_play_split_all_held(s1, sel.drop_first());
        assert(seq![c] + sel.drop_first() =~= sel);
    }
}

/// A set of cards belonging to one player.  Order is irrelevant to
/// gameplay; duplicates never arise from dealing but are tolerated by the
/// container itself.
#[derive(Debug)]
pub struct Hand {
    cards: Vec<Card>,
}

impl View for Hand {
    type V = Seq<Card>;

    closed spec fn view(&self) -> Seq<Card> {
        self.cards@
    }
}

impl Hand {
    pub fn new() -> (h: Hand)
        ensures
            h@ == Seq::<Card>::empty(),
    {
        Hand { cards: Vec::new() }
    }

    pub fn from_cards(cards: Vec<Card>) -> (h: Hand)
        ensures
            h@ == cards@,
    {
        Hand { cards }
    }

    pub fn put(&mut self, card: Card)
        ensures
            final(self)@ == old(self)@.push(card),
    {
        self.cards.push(card);
    }

    /// Moves every card of `other` into this hand.
    pub fn add(&mut self, other: Hand)
        ensures
            final(self)@ == old(self)@ + other@,
    {
        let mut v = other.cards;
        self.cards.append(&mut v);
    }

    /// Moves every card of a dealt pile into this hand.
    pub fn add_deck(&mut self, other: Deck)
        ensures
            final(self)@ == old(self)@ + other@,
    {
        let mut v = other.to_vec();
        self.cards.append(&mut v);
    }

    /// First position of `card`, scanning from the front.
    fn pos(&self, card: &Card) -> (r: Option<usize>)
        ensures
            match r {
                Some(i) => 0 <= i < self@.len() && self@[i as int] == *card && forall|k: int|
                    0 <= k < i ==> self@[k] != *card,
                None => !self@.contains(*card),
            },
    {
        let mut i: usize = 0;
        while i < self.cards.len()
            invariant
                0 <= i <= self@.len(),
                forall|k: int| 0 <= k < i ==> self@[k] != *card,
            decreases self@.len() - i,
        {
            if self.cards[i] == *card {
                return Some(i);
            }
            i += 1;
        }
        None
    }

    pub fn has(&self, card: &Card) -> (r: bool)
        ensures
            r == self@.contains(*card),
    {
        self.pos(card).is_some()
    }

    pub fn has_all(&self, cards: &Vec<Card>) -> (r: bool)
        ensures
            r == forall|k: int| 0 <= k < cards@.len() ==> self@.contains(#[trigger] cards@[k]),
    {
        let mut i: usize = 0;
        while i < cards.len()
            invariant
                0 <= i <= cards@.len(),
                forall|k: int| 0 <= k < i ==> self@.contains(#[trigger] cards@[k]),
            decreases cards@.len() - i,
        {
            if !self.has(&cards[i]) {
                return false;
            }
            i += 1;
        }
        true
    }

    /// Removes the first occurrence of `card`, reporting whether it was
    /// present.
    pub fn remove_card(&mut self, card: &Card) -> (r: bool)
        ensures
            r == old(self)@.contains(*card),
            final(self)@ == remove_first(old(self)@, *card),
    {
        let found = self.pos(card);
        match found {
            Some(i) => {
                self.cards.remove(i);
                proof {
                    lemma_remove_first_at(old(self)@, *card, i as int);
                    assert(old(self)@.contains(*card)) by {
                        assert(old(self)@[i as int] == *card);
                    }
                    assert(final(self)@ =~= remove_first(old(self)@, *card));
                }
                true
            },
            None => {
                proof {
                    lemma_remove_first_len(old(self)@, *card);
                }
                false
            },
        }
    }

    /// The cards of this hand in the given suit, in hand order.
    pub fn get_suits(&self, suit: Suit) -> (r: Vec<Card>)
        ensures
            r@ == self@.filter(|c: Card| c.suit == suit),
    {
        let mut out: Vec<Card> = Vec::new();
        let ghost pred = |c: Card| c.suit == suit;
        let mut i: usize = 0;
        while i < self.cards.len()
            invariant
                0 <= i <= self@.len(),
                out@ == self@.take(i as int).filter(|c: Card| c.suit == suit),
            decreases self@.len() - i,
        {
            let c = self.cards[i];
            proof {
                reveal(Seq::filter);
                assert(self@.take(i + 1).drop_last() =~= self@.take(i as int));
                assert(self@.take(i + 1).last() == c);
            }
            if c.suit == suit {
                out.push(c);
            }
            i += 1;
        }
        proof {
            assert(self@.take(self@.len() as int) =~= self@);
        }
        out
    }

    /// The intersection between the presented selection and this hand:
    /// removes each present card and returns them, or `None` when nothing
    /// matched.
    pub fn play(&mut self, selection: &Vec<Card>) -> (r: Option<Hand>)
        ensures
            final(self)@ == play_split(old(self)@, selection@).0,
            match r {
                Some(h) => h@ == play_split(old(self)@, selection@).1 && h@.len() > 0,
                None => play_split(old(self)@, selection@).1.len() == 0,
            },
    {
        let mut played: Vec<Card> = Vec::new();
        let mut i: usize = 0;
        proof {
            assert(selection@.take(0) =~= Seq::<Card>::empty());
        }
        while i < selection.len()
            invariant
                0 <= i <= selection@.len(),
                play_split(old(self)@, selection@.take(i as int)) == (self@, played@),
            decreases selection@.len() - i,
        {
            let c = selection[i];
            let ghost before = self@;
            proof {
                lemma_play_split_snoc(old(self)@, selection@.take(i as int), c);
                assert(selection@.take(i + 1) =~= selection@.take(i as int).push(c));
            }
            let removed = self.remove_card(&c);
            if removed {
                played.push(c);
            } else {
                proof {
                    lemma_remove_first_len(before, c);
                }
            }
            i += 1;
        }
        proof {
            assert(selection@.take(selection@.len() as int) =~= selection@);
        }
        if played.len() > 0 {
            Some(Hand { cards: played })
        } else {
            None
        }
    }

    /// Read access to the cards, in hand order.
    pub fn cards(&self) -> (r: &Vec<Card>)
        ensures
            r@ == self@,
    {
        &self.cards
    }

    pub fn len(&self) -> (n: usize)
        ensures
            n == self@.len(),
    {
        self.cards.len()
    }

    pub fn is_empty(&self) -> (r: bool)
        ensures
            r == (self@.len() == 0),
    {
        self.cards.len() == 0
    }
}

/// The shuffle key for a round: mixes the engine seed with the round
/// counter, so later rounds deal fresh orders while a fixed seed still
/// reproduces a fixed sequence of deals.
pub open spec fn deal_key(seed: u64, rounds: u64) -> u64 {
    seed ^ rounds
}

/// Even share of the deck at a table of `n`.
pub open spec fn deal_chunks(n: int) -> int {
    52int / n
}

/// Cards left over after the even shares; seats 0 .. extras each take one.
pub open spec fn deal_extras(n: int) -> int {
    52int % n
}

/// First card index of seat `p`'s share of the shuffled deck.
pub open spec fn deal_start(n: int, p: int) -> int {
    p * deal_chunks(n) + if p <= deal_extras(n) {
        p
    } else {
        deal_extras(n)
    }
}

/// Number of cards seat `p` receives.
pub open spec fn deal_size(n: int, p: int) -> int {
    deal_chunks(n) + if p < deal_extras(n) {
        1int
    } else {
        0int
    }
}

/// Seat `p`'s share of the shuffled deck.
pub open spec fn deal_slice(cards: Seq<Card>, n: int, p: int) -> Seq<Card> {
    cards.subrange(deal_start(n, p), deal_start(n, p) + deal_size(n, p))
}

/// The shares tile the deck: each seat starts where the previous ended.
pub proof fn lemma_deal_tiling(n: int, p: int)
    requires
        1 <= n,
        0 <= p,
    ensures
        deal_start(n, p + 1) == deal_start(n, p) + deal_size(n, p),
{
    assert((p + 1) * deal_chunks(n) == p * deal_chunks(n) + deal_chunks(n)) by (nonlinear_arith);
    vstd::arithmetic::div_mod::lemma_mod_bound(52, n);
}

/// The shares exhaust exactly the 52 cards.
pub proof fn lemma_deal_full(n: int)
    requires
        1 <= n <= 52,
    ensures
        deal_start(n, n) == 52,
{
    vstd::arithmetic::div_mod::lemma_fundamental_div_mod(52, n);
    vstd::arithmetic::div_mod::lemma_mod_bound(52, n);
}

pub proof fn lemma_deal_start_mono(n: int, p: int, q: int)
    requires
        1 <= n,
        0 <= p <= q,
    ensures
        deal_start(n, p) <= deal_start(n, q),
    decreases q - p,
{
    vstd::arithmetic::div_mod::lemma_div_pos_is_pos(52, n);
    if p < q {
        lemma_deal_start_mono(n, p, q - 1);
        lemma_deal_tiling(n, q - 1);
    }
}

/// Each share is nonempty and lies within the deck.
pub proof fn lemma_deal_bounds(n: int, p: int)
    requires
        1 <= n <= 52,
        0 <= p < n,
    ensures
        0 <= deal_start(n, p),
        deal_start(n, p) + deal_size(n, p) <= 52,
        1 <= deal_size(n, p),
{
    lemma_deal_start_mono(n, 0, p);
    lemma_deal_tiling(n, p);
    lemma_deal_start_mono(n, p + 1, n);
    lemma_deal_full(n);
    vstd::arithmetic::div_mod::lemma_div_non_zero(52, n);
    vstd::arithmetic::div_mod::lemma_mod_bound(52, n);
}

proof fn lemma_deal_cover_from(n: int, k: int, p: int)
    requires
        1 <= n <= 52,
        0 <= p < n,
        deal_start(n, p) <= k < 52,
    ensures
        exists|q: int|
            0 <= q < n && #[trigger] deal_start(n, q) <= k < deal_start(n, q) + deal_size(n, q),
    decreases n - p,
{
    lemma_deal_tiling(n, p);
    if k < deal_start(n, p) + deal_size(n, p) {
        assert(deal_start(n, p) <= k < deal_start(n, p) + deal_size(n, p));
    } else {
        lemma_deal_full(n);
        if p + 1 == n {
            assert(false);
        }
        lemma_deal_cover_from(n, k, p + 1);
    }
}

/// Every card index of the deck lands in some seat's share.
pub proof fn lemma_deal_cover(n: int, k: int)
    requires
        1 <= n <= 52,
        0 <= k < 52,
    ensures
        exists|q: int|
            0 <= q < n && #[trigger] deal_start(n, q) <= k < deal_start(n, q) + deal_size(n, q),
{
    vstd::arithmetic::div_mod::lemma_div_pos_is_pos(52, n);
    lemma_deal_cover_from(n, k, 0);
}

/// Rejections when dealing a fresh deck into hands.
#[derive(Clone, Copy, Debug, PartialEq, Eq, Structural)]
pub enum DealErrors {
    /// No hands requested.
    ZeroHands,
    /// More hands than the deck has cards.
    TooManyHands(usize),
}

/// Shuffles a fresh 52-card deck with the given seed and partitions it
/// into `hands` roughly-equal hands: seat `p` receives the `p`-th
/// contiguous share of the shuffled order, with one leftover card for
/// each of the first `52 % hands` seats.
pub fn deal(hands: usize, seed: u64) -> (r: Result<Vec<Hand>, DealErrors>)
    ensures
        match r {
            Ok(hs) => {
                &&& 1 <= hands <= 52
                &&& hs@.len() == hands
                &&& forall|p: int|
                    0 <= p < hands ==> (#[trigger] hs@[p])@ == deal_slice(
                        shuffled(full_deck(), seed),
                        hands as int,
                        p,
                    )
            },
            Err(DealErrors::ZeroHands) => hands == 0,
            Err(DealErrors::TooManyHands(h)) => h == hands && hands > 52,
        },
{
    if hands == 0 {
        return Err(DealErrors::ZeroHands);
    }
    if hands > 52 {
        return Err(DealErrors::TooManyHands(hands));
    }
    let mut deck = Deck::standard();
    deck.shuffle(seed);
    let cards: Vec<Card> = deck.to_vec();
    let ghost dealt = cards@;
    proof {
        lemma_full_deck(Card { rank: 1, suit: Suit::Spades });
        assert(dealt.len() == 52);
    }
    let chunks: usize = 52 / hands;
    let extras: usize = 52 % hands;
    let mut hs: Vec<Hand> = Vec::new();
    let mut p: usize = 0;
    let mut idx: usize = 0;
    while p < hands
        invariant
            1 <= hands <= 52,
            cards@ == dealt,
            dealt.len() == 52,
            dealt == shuffled(full_deck(), seed),
            chunks as int == deal_chunks(hands as int),
            extras as int == deal_extras(hands as int),
            0 <= p <= hands,
            idx as int == deal_start(hands as int, p as int),
            idx <= 52,
            hs@.len() == p,
            forall|k: int|
                0 <= k < p ==> (#[trigger] hs@[k])@ == deal_slice(dealt, hands as int, k),
        decreases hands - p,
    {
        proof {
            lemma_deal_bounds(hands as int, p as int);
        }
        let size: usize = if p < extras {
            chunks + 1
        } else {
            chunks
        };
        let mut hv: Vec<Card> = Vec::new();
        let mut j: usize = 0;
        while j < size
            invariant
                0 <= j <= size,
                idx as int + size as int <= 52,
                cards@ == dealt,
                dealt.len() == 52,
                hv@ == dealt.subrange(idx as int, idx as int + j as int),
            decreases size - j,
        {
            hv.push(cards[idx + j]);
            proof {
                assert(hv@ =~= dealt.subrange(idx as int, idx as int + j as int + 1));
            }
            j += 1;
        }
        hs.push(Hand::from_cards(hv));
        proof {
            lemma_deal_tiling(hands as int, p as int);
        }
        idx += size;
        p += 1;
    }
    Ok(hs)
}

} // verus!
