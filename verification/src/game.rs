//! The turn/phase state machine: tracks the current phase, the active
//! player, each hand, the trick pile, and the social ranking, validates
//! proposed plays, and produces a log of game events for each accepted
//! input.  Every call is atomic: a rejected input leaves the state
//! untouched and returns the most specific error.

use vstd::prelude::*;

use crate::card::{Card, Suit, strength, rank_cards, three_of_clubs, all_cards_of_rank, all_suits};
use crate::deck::{
    Deck, Hand, full_deck, shuffled, remove_first, remove_seq, lemma_full_deck,
    lemma_range_deck_valid, lemma_remove_first_len, lemma_remove_first_elements,
    lemma_remove_seq_props, lemma_remove_seq_elements, lemma_play_split_all_held, deal_key,
    deal_chunks, deal_extras, deal_start, deal_size, deal_slice, lemma_deal_tiling,
    lemma_deal_full, lemma_deal_bounds, lemma_deal_cover,
};
use crate::event::GameEvent;
use crate::player::Player;
use crate::rank::{Ranking, rank_for_position, rank_of_position};
use crate::token::{CardSel, spec_parse, parse_token, token_means, lemma_token_card_valid};

verus! {

/// The single source of truth for what kind of input is currently valid.
/// Variants carry seat indices.
#[derive(Clone, Copy, Debug, PartialEq, Eq, Structural)]
pub enum GamePhase {
    /// No round dealt yet.
    Start,
    /// `player` must play or pass.
    Turn { player: usize },
    /// `player` must record a choice among `options` options.
    Pick { player: usize, options: usize },
    /// The lower-ranked `giver` must nominate a card for `taker`.
    Offer { giver: usize, taker: usize },
    /// `taker` must reciprocate to execute the two-way transfer.
    Exchange { giver: usize, taker: usize },
    /// Round fully settled, ranks fixed; awaiting a new deal.
    Restart,
}

/// Recoverable rejections; the engine never panics on caller input.
#[derive(Clone, Copy, Debug, PartialEq, Eq, Structural)]
pub enum GameError {
    /// The called operation is not valid in the current phase (including a
    /// pass before any set has been played in the trick).
    WrongPhase,
    /// The referenced identity does not exist.
    UnknownPlayer,
    /// The acting player is not the phase's active player.
    NotYourTurn,
    /// A token does not match the card grammar (or names a wildcard where a
    /// concrete card is required).
    CardNotParsed,
    /// A parsed card is not in the acting player's hand.
    CardNotHeld,
    /// The proposed cards are not all one rank, repeat a card, are empty,
    /// or mismatch the active trick's cardinality.
    IllegalSetShape,
    /// The proposed set neither out-ranks the active set nor is a bomb.
    IllegalRankOrder,
    /// A pick index outside the offered options.
    BadSelection,
}

/// Rejections at table setup.
#[derive(Clone, Copy, Debug, PartialEq, Eq, Structural)]
pub enum ConfigError {
    /// There is no lone Capitalism: at least two players are needed.
    TooFewPlayers,
    /// More players than the deck can seat.
    TooManyPlayers(usize),
}

/// One pending post-round exchange: `giver` surrenders first.
#[derive(Clone, Copy, Debug, PartialEq, Eq, Structural)]
pub struct ExchangePair {
    pub giver: usize,
    pub taker: usize,
}

/// Mathematical snapshot of the whole engine state.
pub ghost struct GameView {
    pub names: Seq<Seq<char>>,
    pub hands: Seq<Seq<Card>>,
    pub ranks: Seq<Ranking>,
    pub phase: GamePhase,
    /// Cards played in the current trick, oldest first.
    pub pile: Seq<Card>,
    /// Length of the active (most recent) set at the pile's tail.
    pub active_len: int,
    /// Common display rank of the active set.
    pub active_rank: u8,
    /// Cards from tricks already won and cleared this round.
    pub table: Seq<Card>,
    /// Players in finishing order for the current round.
    pub finish_order: Seq<usize>,
    /// Who played the active set, or leads the coming trick or round.
    pub trick_leader: int,
    /// Consecutive passes since the active set was played.
    pub passes: int,
    /// Exchanges still to run after the current one, as a stack.
    pub pending: Seq<ExchangePair>,
    /// The card nominated in the current `Offer`-to-`Exchange` handshake.
    pub offered: Option<Card>,
    /// The option recorded by the last pick.
    pub last_pick: Option<u32>,
    pub seed: u64,
    pub rounds: u64,
}

/// Total number of cards across a sequence of hands.
pub open spec fn total_cards(hands: Seq<Seq<Card>>) -> int
    decreases hands.len(),
{
    if hands.len() == 0 {
        0
    } else {
        total_cards(hands.drop_last()) + hands.last().len()
    }
}

/// How many hands still hold cards.
pub open spec fn count_nonempty(hands: Seq<Seq<Card>>) -> int
    decreases hands.len(),
{
    if hands.len() == 0 {
        0int
    } else {
        count_nonempty(hands.drop_last()) + if hands.last().len() > 0 {
            1int
        } else {
            0int
        }
    }
}

pub proof fn lemma_total_cards_update(hands: Seq<Seq<Card>>, i: int, h: Seq<Card>)
    requires
        0 <= i < hands.len(),
    ensures
        total_cards(hands.update(i, h)) == total_cards(hands) - hands[i].len() + h.len(),
    decreases hands.len(),
{
    let u = hands.update(i, h);
    if i == hands.len() - 1 {
        assert(u.drop_last() =~= hands.drop_last());
        assert(u.last() == h);
    } else {
        lemma_total_cards_update(hands.drop_last(), i, h);
        assert(u.drop_last() =~= hands.drop_last().update(i, h));
        assert(u.last() == hands.last());
    }
}

pub proof fn lemma_count_nonempty_update(hands: Seq<Seq<Card>>, i: int, h: Seq<Card>)
    requires
        0 <= i < hands.len(),
    ensures
        count_nonempty(hands.update(i, h)) == count_nonempty(hands) - (
        if hands[i].len() > 0 {
            1int
        } else {
            0int
        }) + (
        if h.len() > 0 {
            1int
        } else {
            0int
        }),
    decreases hands.len(),
{
    let u = hands.update(i, h);
    if i == hands.len() - 1 {
        assert(u.drop_last() =~= hands.drop_last());
        assert(u.last() == h);
    } else {
        lemma_count_nonempty_update(hands.drop_last(), i, h);
        assert(u.drop_last() =~= hands.drop_last().update(i, h));
        assert(u.last() == hands.last());
    }
}

/// The count of nonempty hands is bounded by the number of hands, and a
/// zero count means every hand is empty.
pub proof fn lemma_count_nonempty_bounds(hands: Seq<Seq<Card>>)
    ensures
        0 <= count_nonempty(hands) <= hands.len(),
        forall|i: int| 0 <= i < hands.len() && hands[i].len() > 0 ==> count_nonempty(hands) >= 1,
    decreases hands.len(),
{
    if hands.len() > 0 {
        lemma_count_nonempty_bounds(hands.drop_last());
        assert forall|i: int|
            0 <= i < hands.len() && hands[i].len() > 0 implies count_nonempty(hands) >= 1 by {
            if i < hands.len() - 1 {
                assert(hands.drop_last()[i].len() > 0);
            }
        }
    }
}

/// A count of at least two yields, for any seat, a nonempty hand at some
/// other seat.
pub proof fn lemma_count_nonempty_other(hands: Seq<Seq<Card>>, p: int)
    requires
        count_nonempty(hands) >= 2,
    ensures
        exists|q: int| 0 <= q < hands.len() && q != p && hands[q].len() > 0,
    decreases hands.len(),
{
    lemma_count_nonempty_bounds(hands.drop_last());
    if hands.last().len() > 0 && hands.len() - 1 != p {
        assert(hands[hands.len() - 1].len() > 0);
    } else if hands.last().len() > 0 {
        // the last hand is seat p; at least one more nonempty hand sits
        // among the rest
        assert(count_nonempty(hands.drop_last()) >= 1);
        lemma_count_nonempty_one(hands.drop_last());
        let q = choose|q: int|
            0 <= q < hands.drop_last().len() && hands.drop_last()[q].len() > 0;
        assert(hands[q].len() > 0);
    } else {
        lemma_count_nonempty_other(hands.drop_last(), p);
        let q = choose|q: int|
            0 <= q < hands.drop_last().len() && q != p && hands.drop_last()[q].len() > 0;
        assert(hands[q].len() > 0);
    }
}

/// A positive count yields a nonempty hand.
pub proof fn lemma_count_nonempty_one(hands: Seq<Seq<Card>>)
    requires
        count_nonempty(hands) >= 1,
    ensures
        exists|q: int| 0 <= q < hands.len() && hands[q].len() > 0,
    decreases hands.len(),
{
    lemma_count_nonempty_bounds(hands.drop_last());
    if hands.last().len() > 0 {
        assert(hands[hands.len() - 1].len() > 0);
    } else {
        lemma_count_nonempty_one(hands.drop_last());
        let q = choose|q: int|
            0 <= q < hands.drop_last().len() && hands.drop_last()[q].len() > 0;
        assert(hands[q].len() > 0);
    }
}

/// When every hand holds cards, the nonempty count is the player count.
pub proof fn lemma_count_nonempty_all(hands: Seq<Seq<Card>>)
    requires
        forall|i: int| 0 <= i < hands.len() ==> hands[i].len() > 0,
    ensures
        count_nonempty(hands) == hands.len(),
    decreases hands.len(),
{
    if hands.len() > 0 {
        assert forall|i: int| 0 <= i < hands.drop_last().len() implies hands.drop_last()[i].len()
            > 0 by {
            assert(hands.drop_last()[i] == hands[i]);
        }
        lemma_count_nonempty_all(hands.drop_last());
    }
}

/// Summing the shares of the first `p` seats lands at `deal_start(n, p)`.
pub proof fn lemma_deal_prefix_total(hands: Seq<Seq<Card>>, dealt: Seq<Card>, n: int, p: int)
    requires
        1 <= n <= 52,
        dealt.len() == 52,
        hands.len() == n,
        0 <= p <= n,
        forall|k: int| 0 <= k < p ==> hands[k] == deal_slice(dealt, n, k),
    ensures
        total_cards(hands.take(p)) == deal_start(n, p),
    decreases p,
{
    if p == 0 {
        assert(hands.take(0) =~= Seq::<Seq<Card>>::empty());
    } else {
        lemma_deal_prefix_total(hands, dealt, n, p - 1);
        assert(hands.take(p).drop_last() =~= hands.take(p - 1));
        assert(hands.take(p).last() == hands[p - 1]);
        lemma_deal_bounds(n, p - 1);
        lemma_deal_tiling(n, p - 1);
    }
}

/// `i` is the first seat holding `card`.
pub open spec fn is_first_holder(hands: Seq<Seq<Card>>, card: Card, i: int) -> bool {
    &&& 0 <= i < hands.len()
    &&& hands[i].contains(card)
    &&& forall|k: int| 0 <= k < i ==> !(#[trigger] hands[k]).contains(card)
}

/// `i` is the first seat whose player carries rank `r`.
pub open spec fn is_first_with_rank(ranks: Seq<Ranking>, r: Ranking, i: int) -> bool {
    &&& 0 <= i < ranks.len()
    &&& ranks[i] == r
    &&& forall|k: int| 0 <= k < i ==> ranks[k] != r
}

pub open spec fn first_with_rank(ranks: Seq<Ranking>, r: Ranking) -> int {
    choose|i: int| is_first_with_rank(ranks, r, i)
}

/// `i` is the first seat whose player carries the given name.
pub open spec fn is_first_named(names: Seq<Seq<char>>, name: Seq<char>, i: int) -> bool {
    &&& 0 <= i < names.len()
    &&& names[i] == name
    &&& forall|k: int| 0 <= k < i ==> names[k] != name
}

/// Seat `k` lies strictly between `p` and `q` walking forward (cyclically)
/// from `p`.
pub open spec fn cyclic_between(p: int, k: int, q: int) -> bool {
    if p < q {
        p < k < q
    } else {
        k > p || k < q
    }
}

/// First seat carrying `name` (meaningful when one exists).
pub open spec fn first_named(names: Seq<Seq<char>>, name: Seq<char>) -> int {
    choose|i: int| is_first_named(names, name, i)
}

/// The results of parsing each token, or `None` when any token fails.
pub open spec fn parse_all(tokens: Seq<Seq<char>>) -> Option<Seq<CardSel>>
    decreases tokens.len(),
{
    if tokens.len() == 0 {
        Some(Seq::empty())
    } else {
        match spec_parse(tokens[0]) {
            None => None,
            Some(sel) => match parse_all(tokens.drop_first()) {
                None => None,
                Some(rest) => Some(seq![sel] + rest),
            },
        }
    }
}

/// Pointwise successful parses make up `parse_all`'s answer.
pub proof fn lemma_parse_all_pointwise(tokens: Seq<Seq<char>>, sels: Seq<CardSel>)
    requires
        sels.len() == tokens.len(),
        forall|k: int| 0 <= k < tokens.len() ==> spec_parse(#[trigger] tokens[k]) == Some(sels[k]),
    ensures
        parse_all(tokens) == Some(sels),
    decreases tokens.len(),
{
    if tokens.len() > 0 {
        lemma_parse_all_pointwise(tokens.drop_first(), sels.drop_first());
        assert(seq![sels[0]] + sels.drop_first() =~= sels);
    }
}

/// One failing token fails the whole parse.
pub proof fn lemma_parse_all_fail(tokens: Seq<Seq<char>>, k: int)
    requires
        0 <= k < tokens.len(),
        spec_parse(tokens[k]) is None,
    ensures
        parse_all(tokens) is None,
    decreases tokens.len(),
{
    if k > 0 {
        if spec_parse(tokens[0]) is Some {
            lemma_parse_all_fail(tokens.drop_first(), k - 1);
        }
    }
}

/// Wildcard expansion: the held cards of `rank`, one per suit in suit
/// order, skipping cards already chosen.
pub open spec fn expand_wildcard(hand: Seq<Card>, chosen: Seq<Card>, rank: u8) -> Seq<Card> {
    rank_cards(rank).filter(|c: Card| hand.contains(c) && !chosen.contains(c))
}

/// Resolves parsed selections against a hand into the concrete set of
/// distinct cards to play, or the first failure: an unheld or repeated
/// exact card, or a wildcard matching nothing.
pub open spec fn resolve_sels(hand: Seq<Card>, chosen: Seq<Card>, sels: Seq<CardSel>) -> Result<
    Seq<Card>,
    GameError,
>
    decreases sels.len(),
{
    if sels.len() == 0 {
        Ok(chosen)
    } else {
        match sels[0] {
            CardSel::Exact(c) => if !hand.contains(c) {
                Err(GameError::CardNotHeld)
            } else if chosen.contains(c) {
                Err(GameError::IllegalSetShape)
            } else {
                resolve_sels(hand, chosen.push(c), sels.drop_first())
            },
            CardSel::AnyOfRank(r) => {
                let add = expand_wildcard(hand, chosen, r);
                if add.len() == 0 {
                    Err(GameError::CardNotHeld)
                } else {
                    resolve_sels(hand, chosen + add, sels.drop_first())
                }
            },
        }
    }
}

/// What resolution guarantees of its result: distinct cards, all drawn
/// from the hand, extending what was already chosen.
pub proof fn lemma_resolve_props(hand: Seq<Card>, chosen: Seq<Card>, sels: Seq<CardSel>)
    requires
        chosen.no_duplicates(),
        forall|k: int| 0 <= k < chosen.len() ==> hand.contains(#[trigger] chosen[k]),
        resolve_sels(hand, chosen, sels) is Ok,
    ensures
        ({
            let cs = resolve_sels(hand, chosen, sels)->Ok_0;
            &&& cs.no_duplicates()
            &&& forall|k: int| 0 <= k < cs.len() ==> hand.contains(#[trigger] cs[k])
            &&& cs.len() >= chosen.len()
        }),
    decreases sels.len(),
{
    if sels.len() > 0 {
        match sels[0] {
            CardSel::Exact(c) => {
                lemma_resolve_props(hand, chosen.push(c), sels.drop_first());
            },
            CardSel::AnyOfRank(r) => {
                let add = expand_wildcard(hand, chosen, r);
                if add.len() > 0 {
                    let pred = |c: Card| hand.contains(c) && !chosen.contains(c);
                    let base = rank_cards(r);
                    assert(base.no_duplicates());
                    lemma_filter_distinct(base, pred);
                    broadcast use vstd::seq_lib::group_filter_ensures;

                    let next = chosen + add;
                    assert forall|a: int, b: int|
                        0 <= a < next.len() && 0 <= b < next.len() && a != b implies next[a]
                        != next[b] by {
                        if a < chosen.len() && b >= chosen.len() {
                            assert(add.contains(next[b])) by {
                                assert(add[b - chosen.len()] == next[b]);
                            }
                            assert(pred(next[b]));
                        } else if b < chosen.len() && a >= chosen.len() {
                            assert(add.contains(next[a])) by {
                                assert(add[a - chosen.len()] == next[a]);
                            }
                            assert(pred(next[a]));
                        } else if a >= chosen.len() && b >= chosen.len() {
                            assert(add[a - chosen.len()] != add[b - chosen.len()]);
                        }
                    }
                    assert(next.no_duplicates());
                    assert forall|k: int| 0 <= k < next.len() implies hand.contains(
                        #[trigger] next[k],
                    ) by {
                        if k >= chosen.len() {
                            assert(add.contains(next[k])) by {
                                assert(add[k - chosen.len()] == next[k]);
                            }
                            assert(pred(next[k]));
                        }
                    }
                    lemma_resolve_props(hand, next, sels.drop_first());
                }
            },
        }
    }
}

/// Every element of a filtered sequence came from the original.
proof fn lemma_filter_subset(s: Seq<Card>, pred: spec_fn(Card) -> bool)
    ensures
        forall|i: int|
            0 <= i < s.filter(pred).len() ==> s.contains(#[trigger] s.filter(pred)[i]),
    decreases s.len(),
{
    reveal(Seq::filter);
    if s.len() > 0 {
        lemma_filter_subset(s.drop_last(), pred);
        let f = s.filter(pred);
        let fd = s.drop_last().filter(pred);
        assert forall|i: int| 0 <= i < f.len() implies s.contains(#[trigger] f[i]) by {
            if pred(s.last()) && i == f.len() - 1 {
                assert(f[i] == s.last());
                assert(s[s.len() - 1] == s.last());
            } else {
                assert(f[i] == fd[i]);
                assert(s.drop_last().contains(fd[i]));
                let k = choose|k: int| 0 <= k < s.drop_last().len() && s.drop_last()[k] == fd[i];
                assert(s[k] == fd[i]);
            }
        }
    }
}

/// A filter of a duplicate-free sequence stays duplicate-free.
proof fn lemma_filter_distinct(s: Seq<Card>, pred: spec_fn(Card) -> bool)
    requires
        s.no_duplicates(),
    ensures
        s.filter(pred).no_duplicates(),
    decreases s.len(),
{
    reveal(Seq::filter);
    if s.len() > 0 {
        assert(s.drop_last().no_duplicates());
        lemma_filter_distinct(s.drop_last(), pred);
        lemma_filter_subset(s.drop_last(), pred);
        if pred(s.last()) {
            let f = s.drop_last().filter(pred);
            assert forall|a: int, b: int|
                0 <= a < f.push(s.last()).len() && 0 <= b < f.push(s.last()).len() && a != b
                implies f.push(s.last())[a] != f.push(s.last())[b] by {
                if b == f.len() && a < f.len() {
                    assert(s.drop_last().contains(f[a]));
                    assert(f[a] != s.last()) by {
                        let k = choose|k: int|
                            0 <= k < s.drop_last().len() && s.drop_last()[k] == f[a];
                        assert(s[k] == f[a]);
                    }
                } else if a == f.len() && b < f.len() {
                    assert(s.drop_last().contains(f[b]));
                    assert(f[b] != s.last()) by {
                        let k = choose|k: int|
                            0 <= k < s.drop_last().len() && s.drop_last()[k] == f[b];
                        assert(s[k] == f[b]);
                    }
                }
            }
        }
    }
}

/// Every card shares the first card's rank.
pub open spec fn uniform_rank(cs: Seq<Card>) -> bool {
    forall|k: int| 0 <= k < cs.len() ==> (#[trigger] cs[k]).rank == cs[0].rank
}

/// A four-of-a-kind, which beats any active set and wins the trick
/// outright.
pub open spec fn is_bomb(cs: Seq<Card>) -> bool {
    cs.len() == 4 && uniform_rank(cs)
}

/// Shape and rank legality of the resolved cards against the current
/// trick: a uniform-rank set, matching the active cardinality and
/// out-ranking the active set unless it opens a trick or is a bomb.
pub open spec fn play_legality(v: GameView, cs: Seq<Card>) -> Option<GameError> {
    if cs.len() == 0 {
        Some(GameError::IllegalSetShape)
    } else if !uniform_rank(cs) {
        Some(GameError::IllegalSetShape)
    } else if is_bomb(cs) {
        None
    } else if v.pile.len() == 0 {
        None
    } else if cs.len() != v.active_len {
        Some(GameError::IllegalSetShape)
    } else if strength(cs[0].rank as int) <= strength(v.active_rank as int) {
        Some(GameError::IllegalRankOrder)
    } else {
        None
    }
}

/// The full decision on a `play` input: either the concrete cards to
/// remove from the acting player's hand, or the most specific rejection.
pub open spec fn play_decision(v: GameView, name: Seq<char>, toks: Seq<Seq<char>>) -> Result<
    Seq<Card>,
    GameError,
> {
    match v.phase {
        GamePhase::Turn { player } => {
            if !(exists|i: int| is_first_named(v.names, name, i)) {
                Err(GameError::UnknownPlayer)
            } else if first_named(v.names, name) != player as int {
                Err(GameError::NotYourTurn)
            } else {
                match parse_all(toks) {
                    None => Err(GameError::CardNotParsed),
                    Some(sels) => match resolve_sels(v.hand(player as int), Seq::empty(), sels) {
                        Err(e) => Err(e),
                        Ok(cs) => match play_legality(v, cs) {
                            Some(e) => Err(e),
                            None => Ok(cs),
                        },
                    },
                }
            }
        },
        _ => Err(GameError::WrongPhase),
    }
}

/// The lone player still holding cards (meaningful when exactly one
/// remains).
pub open spec fn last_standing(hands: Seq<Seq<Card>>) -> int {
    choose|q: int| 0 <= q < hands.len() && hands[q].len() > 0
}

/// `q` is the next player still holding cards when walking clockwise
/// from `p`.
pub open spec fn is_next_unfinished(hands: Seq<Seq<Card>>, p: int, q: int) -> bool {
    &&& 0 <= q < hands.len()
    &&& hands[q].len() > 0
    &&& q != p
    &&& forall|k: int|
        0 <= k < hands.len() && cyclic_between(p, k, q) ==> (#[trigger] hands[k]).len() == 0
}

/// Exact description of an accepted play: the cards leave the hand, the
/// pile or table takes them, finishing and round-end bookkeeping runs,
/// and the events record precisely what happened.
pub open spec fn post_accept_play(
    pre: GameView,
    post: GameView,
    evs: Seq<GameEvent>,
    p: int,
    cs: Seq<Card>,
) -> bool {
    let n = pre.n();
    let hand1 = remove_seq(pre.hand(p), cs);
    let hands1 = pre.hands.update(p, hand1);
    let finished = hand1.len() == 0;
    let round_over = finished && count_nonempty(hands1) == 1;
    let bomb = is_bomb(cs);
    let fpos = pre.finish_order.len() as int;
    let q = last_standing(hands1);
    &&& post.names == pre.names
    &&& post.hands == hands1
    &&& post.pile == if bomb || round_over {
        Seq::<Card>::empty()
    } else {
        pre.pile + cs
    }
    &&& post.table == if bomb || round_over {
        pre.table + pre.pile + cs
    } else {
        pre.table
    }
    &&& post.active_len == if bomb || round_over {
        0int
    } else {
        cs.len() as int
    }
    &&& (bomb || round_over) || post.active_rank == cs[0].rank
    &&& post.passes == 0
    &&& post.trick_leader == p
    &&& post.finish_order == if !finished {
        pre.finish_order
    } else if !round_over {
        pre.finish_order.push(p as usize)
    } else {
        pre.finish_order.push(p as usize).push(q as usize)
    }
    &&& post.ranks == if !finished {
        pre.ranks
    } else if !round_over {
        pre.ranks.update(p, rank_for_position(fpos, n))
    } else {
        pre.ranks.update(p, rank_for_position(fpos, n)).update(q, rank_for_position(n - 1, n))
    }
    &&& if round_over {
        post.phase == GamePhase::Restart
    } else if !finished && bomb {
        post.phase == GamePhase::Turn { player: p as usize }
    } else {
        post.phase matches GamePhase::Turn { player: nx } && is_next_unfinished(
            hands1,
            p,
            nx as int,
        )
    }
    &&& post.pending == pre.pending
    &&& post.offered == pre.offered
    &&& post.last_pick == pre.last_pick
    &&& post.seed == pre.seed
    &&& post.rounds == pre.rounds
    &&& evs.len() == if round_over {
        3int
    } else if finished {
        2int
    } else {
        1int
    }
    &&& if bomb {
        evs[0] matches GameEvent::Bomb { player, cards } && player as int == p && cards@ == cs
    } else if finished {
        evs[0] matches GameEvent::Complete { player, cards } && player as int == p && cards@
            == cs
    } else {
        evs[0] matches GameEvent::Play { player, cards } && player as int == p && cards@ == cs
    }
    &&& finished ==> (evs[1] matches GameEvent::Finish { player, rank } && player as int == p
        && rank == rank_for_position(fpos, n))
    &&& round_over ==> evs[2] == GameEvent::RoundFinish
}

impl GameView {
    pub open spec fn n(self) -> int {
        self.hands.len() as int
    }

    pub open spec fn hand(self, i: int) -> Seq<Card> {
        self.hands[i]
    }

    /// Every card currently dealt, wherever it sits.
    pub open spec fn dealt_total(self) -> int {
        total_cards(self.hands) + self.pile.len() + self.table.len()
    }

    /// Deck conservation: hands, trick pile and cleared tricks together
    /// always hold the full 52 cards of the round.
    pub open spec fn conserved(self) -> bool {
        self.dealt_total() == 52
    }

    /// The most recent set on the pile, the only one relevant to legality.
    pub open spec fn active_set(self) -> Seq<Card> {
        self.pile.subrange(self.pile.len() - self.active_len, self.pile.len() as int)
    }

    pub open spec fn finished(self, i: int) -> bool {
        exists|k: int| 0 <= k < self.finish_order.len() && self.finish_order[k] as int == i
    }

    pub open spec fn cards_ok(self) -> bool {
        &&& forall|i: int, k: int|
            0 <= i < self.hands.len() && 0 <= k < self.hands[i].len() ==> (
            #[trigger] self.hands[i][k]).valid()
        &&& forall|k: int| 0 <= k < self.pile.len() ==> (#[trigger] self.pile[k]).valid()
    }

    pub open spec fn pile_ok(self) -> bool {
        &&& 0 <= self.active_len <= self.pile.len()
        &&& (self.active_len == 0 <==> self.pile.len() == 0)
        &&& self.pile.len() > 0 ==> 1 <= self.active_rank <= 13
        &&& forall|k: int|
            self.pile.len() - self.active_len <= k < self.pile.len() ==> (
            #[trigger] self.pile[k]).rank == self.active_rank
    }

    pub open spec fn finish_order_ok(self) -> bool {
        &&& forall|k: int|
            0 <= k < self.finish_order.len() ==> 0 <= (#[trigger] self.finish_order[k]) < self.n()
        &&& self.finish_order.no_duplicates()
        &&& forall|k: int|
            0 <= k < self.finish_order.len() ==> self.ranks[#[trigger] self.finish_order[k] as int]
                == rank_for_position(k, self.n())
    }

    /// Players finished exactly as their hands emptied (holds during play).
    pub open spec fn finished_iff_empty(self) -> bool {
        forall|i: int| 0 <= i < self.n() ==> (self.hand(i).len() == 0 <==> self.finished(i))
    }

    pub open spec fn all_hands_nonempty(self) -> bool {
        forall|i: int| 0 <= i < self.n() ==> self.hand(i).len() > 0
    }

    pub open spec fn pending_ok(self) -> bool {
        forall|k: int|
            0 <= k < self.pending.len() ==> (#[trigger] self.pending[k]).giver < self.n()
                && self.pending[k].taker < self.n() && self.pending[k].giver
                != self.pending[k].taker
    }

    /// Invariant of the exchange stage at the start of a later round: no
    /// one has finished, everyone holds cards, and the trick leader slot
    /// stores the President who will lead once exchanges settle.
    pub open spec fn exchange_stage_ok(self) -> bool {
        &&& self.finish_order.len() == 0
        &&& self.all_hands_nonempty()
        &&& self.ranks[self.trick_leader] == Ranking::President
        &&& self.pile.len() == 0
        &&& self.passes == 0
    }

    pub open spec fn phase_ok(self) -> bool {
        match self.phase {
            GamePhase::Start => {
                &&& forall|i: int| 0 <= i < self.n() ==> self.hand(i).len() == 0
                &&& self.pile.len() == 0
                &&& self.table.len() == 0
                &&& self.finish_order.len() == 0
                &&& self.pending.len() == 0
                &&& self.offered is None
            },
            GamePhase::Turn { player } => {
                &&& self.conserved()
                &&& (player as int) < self.n()
                &&& self.hand(player as int).len() > 0
                &&& count_nonempty(self.hands) >= 2
                &&& count_nonempty(self.hands) == self.n() - self.finish_order.len()
                &&& self.finished_iff_empty()
                &&& self.pending.len() == 0
                &&& self.offered is None
                &&& self.pile.len() == 0 ==> self.passes == 0
                &&& self.pile.len() > 0 ==> self.passes < self.pass_threshold()
            },
            GamePhase::Pick { player, options } => {
                &&& self.conserved()
                &&& (player as int) < self.n()
                &&& options as int == self.n()
                &&& self.ranks[player as int] == Ranking::President
                &&& self.exchange_stage_ok()
                &&& self.pending.len() >= 1
                &&& self.offered is None
            },
            GamePhase::Offer { giver, taker } => {
                &&& self.conserved()
                &&& (giver as int) < self.n()
                &&& (taker as int) < self.n()
                &&& giver != taker
                &&& self.exchange_stage_ok()
                &&& self.offered is None
            },
            GamePhase::Exchange { giver, taker } => {
                &&& self.conserved()
                &&& (giver as int) < self.n()
                &&& (taker as int) < self.n()
                &&& giver != taker
                &&& self.exchange_stage_ok()
                &&& match self.offered {
                    Some(c) => self.hand(giver as int).contains(c) && c.valid(),
                    None => false,
                }
            },
            GamePhase::Restart => {
                &&& self.conserved()
                &&& self.finish_order.len() == self.n()
                &&& self.pile.len() == 0
                &&& self.pending.len() == 0
                &&& self.offered is None
            },
        }
    }

    /// Passes needed to close the trick: every unfinished player other
    /// than the one who played the active set (who may have finished on
    /// it).
    pub open spec fn pass_threshold(self) -> int {
        count_nonempty(self.hands) - if self.hand(self.trick_leader).len() > 0 {
            1int
        } else {
            0int
        }
    }

    /// Well-formedness: the engine establishes this at construction and
    /// every call preserves it.
    pub open spec fn wf(self) -> bool {
        &&& 2 <= self.n() <= 52
        &&& self.names.len() == self.n()
        &&& self.ranks.len() == self.n()
        &&& 0 <= self.trick_leader < self.n()
        &&& self.cards_ok()
        &&& self.pile_ok()
        &&& self.finish_order_ok()
        &&& self.pending_ok()
        &&& self.phase_ok()
        &&& self.passes >= 0
    }
}

/// Two distinct nonempty hands put the count at two or more.
pub proof fn lemma_count_nonempty_pair(hands: Seq<Seq<Card>>, a: int, b: int)
    requires
        0 <= a < hands.len(),
        0 <= b < hands.len(),
        a != b,
        hands[a].len() > 0,
        hands[b].len() > 0,
    ensures
        count_nonempty(hands) >= 2,
    decreases hands.len(),
{
    lemma_count_nonempty_bounds(hands.drop_last());
    if a == hands.len() - 1 {
        assert(hands.drop_last()[b] == hands[b]);
    } else if b == hands.len() - 1 {
        assert(hands.drop_last()[a] == hands[a]);
    } else {
        lemma_count_nonempty_pair(hands.drop_last(), a, b);
    }
}

/// With exactly one nonempty hand, any two nonempty seats coincide.
pub proof fn lemma_count_nonempty_unique(hands: Seq<Seq<Card>>, a: int, b: int)
    requires
        count_nonempty(hands) == 1,
        0 <= a < hands.len(),
        0 <= b < hands.len(),
        hands[a].len() > 0,
        hands[b].len() > 0,
    ensures
        a == b,
{
    if a != b {
        lemma_count_nonempty_pair(hands, a, b);
    }
}

/// A validated, applied play preserves well-formedness.
proof fn lemma_post_play_wf(pre: GameView, post: GameView, evs: Seq<GameEvent>, p: int, cs: Seq<Card>)
    requires
        pre.wf(),
        0 <= p < pre.n(),
        pre.phase == (GamePhase::Turn { player: p as usize }),
        cs.no_duplicates(),
        cs.len() > 0,
        forall|k: int| 0 <= k < cs.len() ==> pre.hand(p).contains(#[trigger] cs[k]),
        play_legality(pre, cs) is None,
        post_accept_play(pre, post, evs, p, cs),
    ensures
        post.wf(),
{
    let n = pre.n();
    let hand1 = remove_seq(pre.hand(p), cs);
    let hands1 = pre.hands.update(p, hand1);
    let finished = hand1.len() == 0;
    let round_over = finished && count_nonempty(hands1) == 1;
    let bomb = is_bomb(cs);
    let fpos = pre.finish_order.len() as int;
    let q = last_standing(hands1);

    lemma_remove_seq_props(pre.hand(p), cs);
    lemma_remove_seq_elements(pre.hand(p), cs);
    lemma_total_cards_update(pre.hands, p, hand1);
    lemma_count_nonempty_update(pre.hands, p, hand1);
    assert(uniform_rank(cs));
    assert(cs[0].valid()) by {
        assert(pre.hand(p).contains(cs[0]));
        let k = choose|k: int| 0 <= k < pre.hand(p).len() && pre.hand(p)[k] == cs[0];
    }

    // cards in the new hand, pile and table are still valid
    assert forall|i: int, j: int|
        0 <= i < post.hands.len() && 0 <= j < post.hands[i].len() implies (
    #[trigger] post.hands[i][j]).valid() by {
        if i == p {
            assert(pre.hand(p).contains(hand1[j]));
            let k = choose|k: int| 0 <= k < pre.hand(p).len() && pre.hand(p)[k] == hand1[j];
        } else {
            assert(post.hands[i] == pre.hands[i]);
        }
    }
    assert forall|j: int| 0 <= j < cs.len() implies (#[trigger] cs[j]).valid() by {
        assert(pre.hand(p).contains(cs[j]));
        let k = choose|k: int| 0 <= k < pre.hand(p).len() && pre.hand(p)[k] == cs[j];
    }
    assert forall|k: int| 0 <= k < post.pile.len() implies (#[trigger] post.pile[k]).valid() by {
        if !(bomb || round_over) {
            if k < pre.pile.len() {
                assert(post.pile[k] == pre.pile[k]);
            } else {
                assert(post.pile[k] == cs[k - pre.pile.len()]);
            }
        }
    }

    // pile structure
    if !(bomb || round_over) {
        assert forall|k: int|
            post.pile.len() - post.active_len <= k < post.pile.len() implies (
        #[trigger] post.pile[k]).rank == post.active_rank by {
            assert(post.pile[k] == cs[k - pre.pile.len()]);
        }
        assert(post.pile.len() > 0 ==> 1 <= post.active_rank <= 13);
    }

    // the finisher was not already in the finish order, nor was the last
    // player standing
    assert(forall|k: int|
        0 <= k < pre.finish_order.len() ==> pre.finish_order[k] as int != p) by {
        if exists|k: int| 0 <= k < pre.finish_order.len() && pre.finish_order[k] as int == p {
            assert(pre.finished(p));
            assert(pre.hand(p).len() == 0);
        }
    }
    if round_over {
        lemma_count_nonempty_one(hands1);
        let w = choose|w: int| 0 <= w < hands1.len() && hands1[w].len() > 0;
        lemma_count_nonempty_unique(hands1, w, q);
        assert(0 <= q < n && hands1[q].len() > 0);
        assert(q != p);
        assert(forall|k: int|
            0 <= k < pre.finish_order.len() ==> pre.finish_order[k] as int != q) by {
            if exists|k: int| 0 <= k < pre.finish_order.len() && pre.finish_order[k] as int
                == q {
                assert(pre.finished(q));
                assert(pre.hand(q).len() == 0);
                assert(hands1[q] == pre.hands[q]);
            }
        }
    }

    // finish order and rank bookkeeping
    if finished {
        let fo1 = pre.finish_order.push(p as usize);
        assert(fo1.no_duplicates());
        assert forall|k: int| 0 <= k < fo1.len() implies 0 <= (#[trigger] fo1[k]) < n by {
            if k < pre.finish_order.len() {
                assert(fo1[k] == pre.finish_order[k]);
            }
        }
        if round_over {
            let fo2 = fo1.push(q as usize);
            assert(count_nonempty(hands1) == count_nonempty(pre.hands) - 1);
            assert(pre.finish_order.len() == n - 2);
            assert(fo2.no_duplicates());
            assert forall|k: int| 0 <= k < fo2.len() implies post.ranks[#[trigger] fo2[k] as int]
                == rank_for_position(k, n) by {
                if k < pre.finish_order.len() {
                    assert(fo2[k] == pre.finish_order[k]);
                    assert(pre.finish_order[k] as int != p && pre.finish_order[k] as int != q);
                    assert(pre.ranks[fo2[k] as int] == rank_for_position(k, n));
                } else if k == pre.finish_order.len() {
                    assert(fo2[k] == p as usize);
                } else {
                    assert(fo2[k] == q as usize);
                }
            }
        } else {
            assert forall|k: int| 0 <= k < fo1.len() implies post.ranks[#[trigger] fo1[k] as int]
                == rank_for_position(k, n) by {
                if k < pre.finish_order.len() {
                    assert(fo1[k] == pre.finish_order[k]);
                    assert(pre.finish_order[k] as int != p);
                    assert(pre.ranks[fo1[k] as int] == rank_for_position(k, n));
                } else {
                    assert(fo1[k] == p as usize);
                }
            }
        }
    }

    // phase-specific obligations
    if round_over {
        assert(post.finish_order.len() == n);
        assert(post.pile.len() == 0);
        assert(post.dealt_total() == 52) by {
            assert(post.table =~= pre.table + pre.pile + cs);
        }
    } else {
        let nx = if !finished && bomb {
            p
        } else {
            (choose|nxp: usize| post.phase == GamePhase::Turn { player: nxp }) as int
        };
        assert(post.phase matches GamePhase::Turn { player } && (player as int == nx)) by {
            if !(!finished && bomb) {
                assert(post.phase matches GamePhase::Turn { player: nxq } && is_next_unfinished(
                    hands1,
                    p,
                    nxq as int,
                ));
            }
        }
        assert(post.dealt_total() == 52);
        // the next player's hand is nonempty and at least two hands remain
        if finished {
            assert(count_nonempty(hands1) == count_nonempty(pre.hands) - 1);
            lemma_count_nonempty_bounds(hands1);
            assert(count_nonempty(hands1) != 1);
            assert(post.phase matches GamePhase::Turn { player: nxq } && is_next_unfinished(
                hands1,
                p,
                nxq as int,
            ));
            let nxq = choose|nxq: usize|
                post.phase == GamePhase::Turn { player: nxq } && is_next_unfinished(
                    hands1,
                    p,
                    nxq as int,
                );
            assert(hands1[nxq as int].len() > 0);
            assert(count_nonempty(hands1) >= 1);
            assert(count_nonempty(hands1) >= 2);
        } else {
            assert(count_nonempty(hands1) == count_nonempty(pre.hands));
        }
        // finished players are exactly the empty hands
        assert forall|i: int|
            0 <= i < n implies (post.hands[i].len() == 0 <==> post.finished(i)) by {
            let fo = pre.finish_order;
            if finished {
                let fo1 = fo.push(p as usize);
                if i == p {
                    assert(fo1[fo.len() as int] as int == p);
                    assert(post.finished(i));
                } else {
                    assert(post.hands[i] == pre.hands[i]);
                    if pre.finished(i) {
                        let k = choose|k: int| 0 <= k < fo.len() && fo[k] as int == i;
                        assert(fo1[k] as int == i);
                        assert(post.finished(i));
                    }
                    if post.finished(i) {
                        let k = choose|k: int| 0 <= k < fo1.len() && fo1[k] as int == i;
                        assert(k < fo.len());
                        assert(pre.finished(i));
                    }
                }
            } else {
                assert(post.finish_order == fo);
                if i == p {
                    assert(post.hands[p].len() > 0);
                    if post.finished(p) {
                        assert(pre.finished(p));
                        assert(pre.hand(p).len() == 0);
                    }
                } else {
                    assert(post.hands[i] == pre.hands[i]);
                    assert(pre.finished(i) == post.finished(i));
                }
            }
        }
        // pass counters stay in range
        if post.pile.len() > 0 {
            assert(!bomb && !round_over);
            assert(post.hands[post.trick_leader] == hand1);
            if finished {
                assert(post.pass_threshold() == count_nonempty(hands1));
            } else {
                assert(post.pass_threshold() == count_nonempty(hands1) - 1);
            }
            assert(post.passes < post.pass_threshold());
        }
    }
}

/// The decision on a `pass` input: passing needs the right phase, the
/// active player, and an open trick to pass on.
pub open spec fn pass_decision(v: GameView, name: Seq<char>) -> Option<GameError> {
    match v.phase {
        GamePhase::Turn { player } => {
            if !(exists|i: int| is_first_named(v.names, name, i)) {
                Some(GameError::UnknownPlayer)
            } else if first_named(v.names, name) != player as int {
                Some(GameError::NotYourTurn)
            } else if v.pile.len() == 0 {
                Some(GameError::WrongPhase)
            } else {
                None
            }
        },
        _ => Some(GameError::WrongPhase),
    }
}

/// Exact description of an accepted pass: the pass count advances, and
/// once every other active player has passed the trick clears and its
/// winner leads again.
pub open spec fn post_accept_pass(pre: GameView, post: GameView, evs: Seq<GameEvent>, p: int) -> bool {
    let closes = pre.passes + 1 >= pre.pass_threshold();
    let leader_alive = pre.hand(pre.trick_leader).len() > 0;
    &&& post.names == pre.names
    &&& post.hands == pre.hands
    &&& post.ranks == pre.ranks
    &&& post.finish_order == pre.finish_order
    &&& post.table == if closes {
        pre.table + pre.pile
    } else {
        pre.table
    }
    &&& post.pile == if closes {
        Seq::<Card>::empty()
    } else {
        pre.pile
    }
    &&& post.active_len == if closes {
        0int
    } else {
        pre.active_len
    }
    &&& (!closes ==> post.active_rank == pre.active_rank)
    &&& post.passes == if closes {
        0int
    } else {
        pre.passes + 1
    }
    &&& if closes {
        if leader_alive {
            post.phase == (GamePhase::Turn { player: pre.trick_leader as usize })
                && post.trick_leader == pre.trick_leader
        } else {
            post.phase matches GamePhase::Turn { player: q } && is_next_unfinished(
                pre.hands,
                pre.trick_leader,
                q as int,
            ) && post.trick_leader == q as int
        }
    } else {
        (post.phase matches GamePhase::Turn { player: q } && is_next_unfinished(
            pre.hands,
            p,
            q as int,
        )) && post.trick_leader == pre.trick_leader
    }
    &&& evs.len() == 1
    &&& (evs[0] matches GameEvent::Skip { player } && player as int == p)
    &&& post.pending == pre.pending
    &&& post.offered == pre.offered
    &&& post.last_pick == pre.last_pick
    &&& post.seed == pre.seed
    &&& post.rounds == pre.rounds
}

/// The decision on a `select` input during the pick stage.
pub open spec fn select_decision(v: GameView, name: Seq<char>, choice: u32) -> Option<GameError> {
    match v.phase {
        GamePhase::Pick { player, options } => {
            if !(exists|i: int| is_first_named(v.names, name, i)) {
                Some(GameError::UnknownPlayer)
            } else if first_named(v.names, name) != player as int {
                Some(GameError::NotYourTurn)
            } else if choice as int >= options as int {
                Some(GameError::BadSelection)
            } else {
                None
            }
        },
        _ => Some(GameError::WrongPhase),
    }
}

/// The decision on an `offer` or `accept` input: the phase's acting seat
/// must speak, the token must name a concrete card, and that card must be
/// in the actor's hand.
pub open spec fn transfer_decision(
    v: GameView,
    actor: int,
    named: bool,
    first: int,
    token: Seq<char>,
) -> Result<Card, GameError> {
    if !named {
        Err(GameError::UnknownPlayer)
    } else if first != actor {
        Err(GameError::NotYourTurn)
    } else {
        match spec_parse(token) {
            Some(CardSel::Exact(c)) => if v.hand(actor).contains(c) {
                Ok(c)
            } else {
                Err(GameError::CardNotHeld)
            },
            _ => Err(GameError::CardNotParsed),
        }
    }
}

/// The decision on an `offer` input.
pub open spec fn offer_decision(v: GameView, name: Seq<char>, token: Seq<char>) -> Result<
    Card,
    GameError,
> {
    match v.phase {
        GamePhase::Offer { giver, taker } => transfer_decision(
            v,
            giver as int,
            exists|i: int| is_first_named(v.names, name, i),
            first_named(v.names, name),
            token,
        ),
        _ => Err(GameError::WrongPhase),
    }
}

/// The decision on an `accept` input.
pub open spec fn accept_decision(v: GameView, name: Seq<char>, token: Seq<char>) -> Result<
    Card,
    GameError,
> {
    match v.phase {
        GamePhase::Exchange { giver, taker } => transfer_decision(
            v,
            taker as int,
            exists|i: int| is_first_named(v.names, name, i),
            first_named(v.names, name),
            token,
        ),
        _ => Err(GameError::WrongPhase),
    }
}

/// An executed exchange preserves well-formedness: both hands keep their
/// sizes, and the stage advances to the next pair or to the President's
/// lead.
proof fn lemma_exchange_wf(pre: GameView, post: GameView, g: int, t: int, give: Card, back: Card)
    requires
        pre.wf(),
        0 <= g < pre.n(),
        0 <= t < pre.n(),
        g != t,
        pre.phase == (GamePhase::Exchange { giver: g as usize, taker: t as usize }),
        pre.offered == Some(give),
        pre.hand(t).contains(back),
        back.valid(),
        post.hands == pre.hands.update(g, remove_first(pre.hand(g), give).push(back)).update(
            t,
            remove_first(pre.hand(t), back).push(give),
        ),
        post.names == pre.names,
        post.ranks == pre.ranks,
        post.finish_order == pre.finish_order,
        post.pile == pre.pile,
        post.active_len == pre.active_len,
        post.active_rank == pre.active_rank,
        post.table == pre.table,
        post.trick_leader == pre.trick_leader,
        post.passes == pre.passes,
        post.offered is None,
        post.pending == if pre.pending.len() > 0 {
            pre.pending.drop_last()
        } else {
            pre.pending
        },
        post.phase == if pre.pending.len() > 0 {
            GamePhase::Offer {
                giver: pre.pending.last().giver,
                taker: pre.pending.last().taker,
            }
        } else {
            GamePhase::Turn { player: pre.trick_leader as usize }
        },
    ensures
        post.wf(),
{
    let n = pre.n();
    let hg2 = remove_first(pre.hand(g), give).push(back);
    let ht2 = remove_first(pre.hand(t), back).push(give);
    lemma_remove_first_len(pre.hand(g), give);
    lemma_remove_first_len(pre.hand(t), back);
    assert(hg2.len() == pre.hand(g).len());
    assert(ht2.len() == pre.hand(t).len());
    lemma_total_cards_update(pre.hands, g, hg2);
    lemma_total_cards_update(pre.hands.update(g, hg2), t, ht2);
    assert(pre.hands.update(g, hg2)[t] == pre.hands[t]);
    assert(total_cards(post.hands) == total_cards(pre.hands));

    // hands keep only valid cards
    lemma_remove_first_elements(pre.hand(g), give);
    lemma_remove_first_elements(pre.hand(t), back);
    assert(give.valid());
    assert forall|i: int, j: int|
        0 <= i < post.hands.len() && 0 <= j < post.hands[i].len() implies (
    #[trigger] post.hands[i][j]).valid() by {
        if i == t {
            if j < ht2.len() - 1 {
                assert(post.hands[t][j] == remove_first(pre.hand(t), back)[j]);
                assert(pre.hand(t).contains(remove_first(pre.hand(t), back)[j]));
                let k = choose|k: int|
                    0 <= k < pre.hand(t).len() && pre.hand(t)[k] == remove_first(
                        pre.hand(t),
                        back,
                    )[j];
            } else {
                assert(post.hands[t][j] == give);
            }
        } else if i == g {
            if j < hg2.len() - 1 {
                assert(post.hands[g][j] == remove_first(pre.hand(g), give)[j]);
                assert(pre.hand(g).contains(remove_first(pre.hand(g), give)[j]));
                let k = choose|k: int|
                    0 <= k < pre.hand(g).len() && pre.hand(g)[k] == remove_first(
                        pre.hand(g),
                        give,
                    )[j];
            } else {
                assert(post.hands[g][j] == back);
            }
        } else {
            assert(post.hands[i] == pre.hands[i]);
        }
    }

    // every hand still holds cards
    assert forall|i: int| 0 <= i < n implies (#[trigger] post.hands[i]).len() > 0 by {
        assert(pre.hand(i).len() > 0);
        if i == g {
            assert(post.hands[g] == hg2);
        } else if i == t {
            assert(post.hands[t] == ht2);
        } else {
            assert(post.hands[i] == pre.hands[i]);
        }
    }
    if pre.pending.len() == 0 {
        lemma_count_nonempty_all(post.hands);
    } else {
        let pair = pre.pending[pre.pending.len() - 1];
        assert((pair.giver as int) < n && (pair.taker as int) < n && pair.giver != pair.taker);
    }
}

fn copy_cards(v: &Vec<Card>) -> (r: Vec<Card>)
    ensures
        r@ == v@,
{
    let mut r: Vec<Card> = Vec::new();
    let mut i: usize = 0;
    while i < v.len()
        invariant
            0 <= i <= v@.len(),
            r@ == v@.take(i as int),
        decreases v@.len() - i,
    {
        r.push(v[i]);
        proof {
            assert(v@.take(i + 1) =~= v@.take(i as int).push(v@[i as int]));
        }
        i += 1;
    }
    proof {
        assert(v@.take(v@.len() as int) =~= v@);
    }
    r
}

fn contains_card(v: &Vec<Card>, c: &Card) -> (r: bool)
    ensures
        r == v@.contains(*c),
{
    let mut i: usize = 0;
    while i < v.len()
        invariant
            0 <= i <= v@.len(),
            forall|k: int| 0 <= k < i ==> v@[k] != *c,
        decreases v@.len() - i,
    {
        if v[i] == *c {
            return true;
        }
        i += 1;
    }
    false
}

/// The running engine.  All fields are private; the ghost `GameView` is
/// the contract-level picture of the state.
#[derive(Debug)]
pub struct Game {
    players: Vec<Player>,
    phase: GamePhase,
    pile: Vec<Card>,
    active_len: usize,
    active_rank: u8,
    table: Vec<Card>,
    finish_order: Vec<usize>,
    trick_leader: usize,
    passes: usize,
    pending: Vec<ExchangePair>,
    offered: Option<Card>,
    last_pick: Option<u32>,
    seed: u64,
    rounds: u64,
}

impl View for Game {
    type V = GameView;

    closed spec fn view(&self) -> GameView {
        GameView {
            names: self.players@.map(|i: int, p: Player| p.name@),
            hands: self.players@.map(|i: int, p: Player| p.hand@),
            ranks: self.players@.map(|i: int, p: Player| p.rank),
            phase: self.phase,
            pile: self.pile@,
            active_len: self.active_len as int,
            active_rank: self.active_rank,
            table: self.table@,
            finish_order: self.finish_order@,
            trick_leader: self.trick_leader as int,
            passes: self.passes as int,
            pending: self.pending@,
            offered: self.offered,
            last_pick: self.last_pick,
            seed: self.seed,
            rounds: self.rounds,
        }
    }
}

/// Pre-game table setup: collects players, then starts the engine.
#[derive(Debug)]
pub struct Config {
    names: Vec<String>,
}

/// Read-only snapshot of the table being configured.
#[derive(Debug)]
pub struct ConfigStatus {
    pub names: Vec<String>,
}

impl View for Config {
    type V = Seq<Seq<char>>;

    closed spec fn view(&self) -> Seq<Seq<char>> {
        self.names@.map(|i: int, s: String| s@)
    }
}

impl Config {
    pub fn new() -> (c: Config)
        ensures
            c@.len() == 0,
    {
        Config { names: Vec::new() }
    }

    pub fn add_player(&mut self, name: &str)
        ensures
            final(self)@ == old(self)@.push(name@),
    {
        self.names.push(name.to_owned());
        proof {
            assert(self@ =~= old(self)@.push(name@));
        }
    }

    pub fn status(&self) -> (r: ConfigStatus)
        ensures
            r.names@.map(|i: int, s: String| s@) == self@,
    {
        let mut names: Vec<String> = Vec::new();
        let mut i: usize = 0;
        while i < self.names.len()
            invariant
                0 <= i <= self.names@.len(),
                names@.len() == i,
                forall|k: int| 0 <= k < i ==> (#[trigger] names@[k])@ == self.names@[k]@,
            decreases self.names@.len() - i,
        {
            names.push(self.names[i].clone());
            i += 1;
        }
        let r = ConfigStatus { names };
        proof {
            assert(r.names@.map(|i: int, s: String| s@) =~= self@);
        }
        r
    }

    /// Seats the configured players and hands over a fresh engine, or
    /// rejects a table the deck cannot serve.
    pub fn start(self, seed: u64) -> (r: Result<Game, ConfigError>)
        ensures
            match r {
                Ok(g) => {
                    &&& 2 <= self@.len() <= 52
                    &&& g@.wf()
                    &&& g@.phase == GamePhase::Start
                    &&& g@.names == self@
                    &&& g@.seed == seed
                    &&& g@.rounds == 0
                    &&& forall|i: int| 0 <= i < g@.n() ==> g@.ranks[i] == Ranking::Citizen
                },
                Err(ConfigError::TooFewPlayers) => self@.len() < 2,
                Err(ConfigError::TooManyPlayers(n)) => n as int == self@.len() && self@.len() > 52,
            },
    {
        Game::init(self.names, seed)
    }
}

impl Game {
    /// Seats `names` and returns an engine in the `Start` phase.  Fails
    /// if and only if there are fewer than 2 names or more than 52.
    pub fn init(names: Vec<String>, seed: u64) -> (r: Result<Game, ConfigError>)
        ensures
            match r {
                Ok(g) => {
                    &&& 2 <= names@.len() <= 52
                    &&& g@.wf()
                    &&& g@.phase == GamePhase::Start
                    &&& g@.names == names@.map(|i: int, s: String| s@)
                    &&& g@.seed == seed
                    &&& g@.rounds == 0
                    &&& forall|i: int| 0 <= i < g@.n() ==> g@.ranks[i] == Ranking::Citizen
                },
                Err(ConfigError::TooFewPlayers) => names@.len() < 2,
                Err(ConfigError::TooManyPlayers(n)) => n as int == names@.len() && names@.len()
                    > 52,
            },
    {
        let n = names.len();
        if n < 2 {
            return Err(ConfigError::TooFewPlayers);
        }
        if n > 52 {
            return Err(ConfigError::TooManyPlayers(n));
        }
        let mut players: Vec<Player> = Vec::new();
        let mut i: usize = 0;
        while i < names.len()
            invariant
                0 <= i <= names@.len(),
                players@.len() == i,
                forall|k: int| 0 <= k < i ==> (#[trigger] players@[k]).hand@.len() == 0,
                forall|k: int| 0 <= k < i ==> (#[trigger] players@[k]).rank == Ranking::Citizen,
                forall|k: int| 0 <= k < i ==> (#[trigger] players@[k]).name@ == names@[k]@,
            decreases names@.len() - i,
        {
            players.push(Player::new(names[i].clone()));
            i += 1;
        }
        let g = Game {
            players,
            phase: GamePhase::Start,
            pile: Vec::new(),
            active_len: 0,
            active_rank: 0,
            table: Vec::new(),
            finish_order: Vec::new(),
            trick_leader: 0,
            passes: 0,
            pending: Vec::new(),
            offered: None,
            last_pick: None,
            seed,
            rounds: 0,
        };
        proof {
            assert(g@.names =~= names@.map(|i: int, s: String| s@));
            assert(g@.wf());
        }
        Ok(g)
    }

    /// Gathers all 52 cards, shuffles them with this round's key, and
    /// deals them out: seat `p` takes the `p`-th contiguous share of the
    /// shuffled order.  Clears the trick, the table and the finish order;
    /// touches nothing else.
    fn deal_new_round(&mut self)
        requires
            old(self)@.wf(),
        ensures
            ({
                let n = old(self)@.n();
                let dealt = shuffled(full_deck(), deal_key(old(self)@.seed, old(self)@.rounds));
                &&& final(self)@.names == old(self)@.names
                &&& final(self)@.ranks == old(self)@.ranks
                &&& final(self)@.hands.len() == n
                &&& forall|p: int|
                    0 <= p < n ==> final(self)@.hands[p] == deal_slice(dealt, n, p)
                &&& forall|p: int|
                    0 <= p < n ==> (#[trigger] final(self)@.hands[p]).len() == deal_size(n, p)
                &&& forall|p: int| 0 <= p < n ==> (#[trigger] final(self)@.hands[p]).len() >= 1
                &&& total_cards(final(self)@.hands) == 52
                &&& forall|p: int, j: int|
                    0 <= p < n && 0 <= j < final(self)@.hands[p].len() ==> (
                    #[trigger] final(self)@.hands[p][j]).valid()
                &&& exists|p: int|
                    0 <= p < n && (#[trigger] final(self)@.hands[p]).contains(three_of_clubs())
                &&& final(self)@.pile.len() == 0
                &&& final(self)@.active_len == 0
                &&& final(self)@.table.len() == 0
                &&& final(self)@.finish_order.len() == 0
                &&& final(self)@.passes == 0
                &&& final(self)@.pending == old(self)@.pending
                &&& final(self)@.offered == old(self)@.offered
                &&& final(self)@.last_pick == old(self)@.last_pick
                &&& final(self)@.phase == old(self)@.phase
                &&& final(self)@.trick_leader == old(self)@.trick_leader
                &&& final(self)@.seed == old(self)@.seed
                &&& final(self)@.rounds == old(self)@.rounds.wrapping_add(1)
            }),
    {
        let n = self.players.len();
        let key = self.seed ^ self.rounds;
        let mut deck = Deck::standard();
        deck.shuffle(key);
        let cards: Vec<Card> = deck.to_vec();
        let ghost dealt = cards@;
        proof {
            lemma_full_deck(three_of_clubs());
            assert(dealt == shuffled(full_deck(), deal_key(self.seed, self.rounds)));
            assert(dealt.len() == 52);
        }
        let chunks: usize = 52 / n;
        let extras: usize = 52 % n;
        let mut p: usize = 0;
        let mut idx: usize = 0;
        while p < n
            invariant
                self.players@.len() == n,
                2 <= n <= 52,
                cards@ == dealt,
                dealt.len() == 52,
                dealt == shuffled(full_deck(), deal_key(old(self).seed, old(self).rounds)),
                chunks as int == deal_chunks(n as int),
                extras as int == deal_extras(n as int),
                0 <= p <= n,
                idx as int == deal_start(n as int, p as int),
                idx <= 52,
                forall|k: int|
                    0 <= k < p ==> (#[trigger] self.players@[k]).hand@ == deal_slice(
                        dealt,
                        n as int,
                        k,
                    ),
                forall|k: int|
                    0 <= k < p ==> (#[trigger] self.players@[k]).name == old(
                        self,
                    ).players@[k].name && self.players@[k].rank == old(self).players@[k].rank,
                forall|k: int| p <= k < n ==> #[trigger] self.players@[k] == old(self).players@[k],
                self.phase == old(self).phase,
                self.pile == old(self).pile,
                self.active_len == old(self).active_len,
                self.active_rank == old(self).active_rank,
                self.table == old(self).table,
                self.finish_order == old(self).finish_order,
                self.trick_leader == old(self).trick_leader,
                self.passes == old(self).passes,
                self.pending == old(self).pending,
                self.offered == old(self).offered,
                self.last_pick == old(self).last_pick,
                self.seed == old(self).seed,
                self.rounds == old(self).rounds,
            decreases n - p,
        {
            proof {
                lemma_deal_bounds(n as int, p as int);
            }
            let size: usize = if p < extras {
                chunks + 1
            } else {
                chunks
            };
            let mut hv: Vec<Card> = Vec::new();
            let mut j: usize = 0;
            while j < size
                invariant
                    0 <= j <= size,
                    idx as int + size as int <= 52,
                    cards@ == dealt,
                    dealt.len() == 52,
                    hv@ == dealt.subrange(idx as int, idx as int + j as int),
                decreases size - j,
            {
                hv.push(cards[idx + j]);
                proof {
                    assert(hv@ =~= dealt.subrange(idx as int, idx as int + j as int + 1));
                }
                j += 1;
            }
            let ghost players_before = self.players@;
            let mut pl = self.players.remove(p);
            pl.hand = Hand::from_cards(hv);
            self.players.insert(p, pl);
            proof {
                assert(self.players@ =~= players_before.update(p as int, pl));
                lemma_deal_tiling(n as int, p as int);
            }
            idx += size;
            p += 1;
        }
        self.pile = Vec::new();
        self.active_len = 0;
        self.active_rank = 0;
        self.table = Vec::new();
        self.finish_order = Vec::new();
        self.passes = 0;
        self.rounds = self.rounds.wrapping_add(1);
        proof {
            let nn = n as int;
            let hands = self@.hands;
            assert(self@.names =~= old(self)@.names);
            assert(self@.ranks =~= old(self)@.ranks);
            assert(forall|q: int| 0 <= q < nn ==> hands[q] == deal_slice(dealt, nn, q));
            assert forall|q: int| 0 <= q < nn implies (#[trigger] hands[q]).len() == deal_size(
                nn,
                q,
            ) by {
                lemma_deal_bounds(nn, q);
            }
            assert forall|q: int| 0 <= q < nn implies (#[trigger] hands[q]).len() >= 1 by {
                lemma_deal_bounds(nn, q);
            }
            lemma_deal_prefix_total(hands, dealt, nn, nn);
            assert(hands.take(nn) =~= hands);
            lemma_deal_full(nn);
            lemma_range_deck_valid(1, 14, all_suits());
            assert forall|i: int| 0 <= i < 52 implies (#[trigger] dealt[i]).valid() by {
                assert(dealt.contains(dealt[i]));
                assert(full_deck().contains(dealt[i]));
                let k = choose|k: int| 0 <= k < full_deck().len() && full_deck()[k] == dealt[i];
                assert(full_deck()[k].valid());
            }
            assert forall|q: int, j: int|
                0 <= q < nn && 0 <= j < hands[q].len() implies (#[trigger] hands[q][j]).valid() by {
                lemma_deal_bounds(nn, q);
                assert(hands[q][j] == dealt[deal_start(nn, q) + j]);
            }
            assert(full_deck().contains(three_of_clubs()));
            assert(dealt.contains(three_of_clubs()));
            let ki = choose|k: int| 0 <= k < dealt.len() && dealt[k] == three_of_clubs();
            lemma_deal_cover(nn, ki);
            let q = choose|q: int|
                0 <= q < nn && #[trigger] deal_start(nn, q) <= ki < deal_start(nn, q) + deal_size(
                    nn,
                    q,
                );
            assert(hands[q][ki - deal_start(nn, q)] == three_of_clubs()) by {
                lemma_deal_bounds(nn, q);
            }
            assert(hands[q].contains(three_of_clubs()));
        }
    }

    /// First seat holding `card`, if any.
    fn find_holder(&self, card: &Card) -> (res: Option<usize>)
        ensures
            match res {
                Some(i) => is_first_holder(self@.hands, *card, i as int),
                None => forall|k: int|
                    0 <= k < self@.hands.len() ==> !(#[trigger] self@.hands[k]).contains(*card),
            },
    {
        let mut i: usize = 0;
        while i < self.players.len()
            invariant
                0 <= i <= self.players@.len(),
                forall|k: int| 0 <= k < i ==> !(#[trigger] self@.hands[k]).contains(*card),
            decreases self.players@.len() - i,
        {
            if self.players[i].hand.has(card) {
                return Some(i);
            }
            i += 1;
        }
        None
    }

    /// First seat whose player carries rank `r`, if any.
    fn find_rank(&self, r: Ranking) -> (res: Option<usize>)
        ensures
            match res {
                Some(i) => is_first_with_rank(self@.ranks, r, i as int),
                None => forall|k: int| 0 <= k < self@.ranks.len() ==> self@.ranks[k] != r,
            },
    {
        let mut i: usize = 0;
        while i < self.players.len()
            invariant
                0 <= i <= self.players@.len(),
                forall|k: int| 0 <= k < i ==> self@.ranks[k] != r,
            decreases self.players@.len() - i,
        {
            if self.players[i].rank == r {
                return Some(i);
            }
            i += 1;
        }
        None
    }

    /// Deals a round and opens play.  Valid only in `Start` (first round:
    /// the holder of the 3 of Clubs leads) and `Restart` (later rounds:
    /// the President picks, exchanges follow, then the President leads).
    pub fn start(&mut self) -> (r: Result<Vec<GameEvent>, GameError>)
        requires
            old(self)@.wf(),
        ensures
            final(self)@.wf(),
            match r {
                Ok(evs) => ({
                    let n = old(self)@.n();
                    let dealt = shuffled(
                        full_deck(),
                        deal_key(old(self)@.seed, old(self)@.rounds),
                    );
                    &&& (old(self)@.phase == GamePhase::Start || old(self)@.phase
                        == GamePhase::Restart)
                    &&& final(self)@.names == old(self)@.names
                    &&& final(self)@.ranks == old(self)@.ranks
                    &&& final(self)@.hands.len() == n
                    &&& forall|p: int|
                        0 <= p < n ==> final(self)@.hands[p] == deal_slice(dealt, n, p)
                    &&& final(self)@.seed == old(self)@.seed
                    &&& final(self)@.rounds == old(self)@.rounds.wrapping_add(1)
                    &&& final(self)@.finish_order.len() == 0
                    &&& evs@.len() == 1
                    &&& if old(self)@.phase == GamePhase::Start {
                        &&& evs@[0] == GameEvent::Start
                        &&& (final(self)@.phase matches GamePhase::Turn { player }
                            && is_first_holder(
                            final(self)@.hands,
                            three_of_clubs(),
                            player as int,
                        ) && final(self)@.trick_leader == player as int)
                    } else {
                        &&& evs@[0] == GameEvent::StartPick
                        &&& (final(self)@.phase matches GamePhase::Pick { player, options }
                            && is_first_with_rank(
                            old(self)@.ranks,
                            Ranking::President,
                            player as int,
                        ) && options as int == n && final(self)@.trick_leader == player as int)
                    }
                }),
                Err(e) => {
                    &&& e == GameError::WrongPhase
                    &&& !(old(self)@.phase == GamePhase::Start || old(self)@.phase
                        == GamePhase::Restart)
                    &&& final(self)@ == old(self)@
                },
            },
    {
        match self.phase {
            GamePhase::Start => {
                self.deal_new_round();
                let three = Card::new(3, Suit::Clubs);
                let holder_opt = self.find_holder(&three);
                proof {
                    if holder_opt is None {
                        let p = choose|p: int|
                            0 <= p < self@.n() && (#[trigger] self@.hands[p]).contains(
                                three_of_clubs(),
                            );
                        assert(false);
                    }
                }
                let holder = holder_opt.unwrap();
                self.phase = GamePhase::Turn { player: holder };
                self.trick_leader = holder;
                let mut evs: Vec<GameEvent> = Vec::new();
                evs.push(GameEvent::Start);
                proof {
                    lemma_count_nonempty_all(self@.hands);
                    assert(self@.hand(holder as int).len() > 0);
                    assert(self@.wf());
                }
                Ok(evs)
            },
            GamePhase::Restart => {
                let ghost fo = old(self)@.finish_order;
                let n = self.players.len();
                self.deal_new_round();
                let pres_opt = self.find_rank(Ranking::President);
                proof {
                    assert(old(self)@.ranks[fo[0] as int] == rank_for_position(
                        0,
                        old(self)@.n(),
                    ));
                    if pres_opt is None {
                        assert(self@.ranks[fo[0] as int] != Ranking::President);
                        assert(false);
                    }
                }
                let pres = pres_opt.unwrap();
                let scum_opt = self.find_rank(Ranking::Scum);
                proof {
                    let nn = old(self)@.n();
                    assert(old(self)@.ranks[fo[nn - 1] as int] == rank_for_position(nn - 1, nn));
                    if scum_opt is None {
                        assert(self@.ranks[fo[nn - 1] as int] != Ranking::Scum);
                        assert(false);
                    }
                }
                let scum = scum_opt.unwrap();
                self.pending = Vec::new();
                if n >= 4 {
                    let vp_opt = self.find_rank(Ranking::VicePresident);
                    proof {
                        let nn = old(self)@.n();
                        assert(old(self)@.ranks[fo[1] as int] == rank_for_position(1, nn));
                        if vp_opt is None {
                            assert(self@.ranks[fo[1] as int] != Ranking::VicePresident);
                            assert(false);
                        }
                    }
                    let vp = vp_opt.unwrap();
                    let vs_opt = self.find_rank(Ranking::ViceScum);
                    proof {
                        let nn = old(self)@.n();
                        assert(old(self)@.ranks[fo[nn - 2] as int] == rank_for_position(
                            nn - 2,
                            nn,
                        ));
                        if vs_opt is None {
                            assert(self@.ranks[fo[nn - 2] as int] != Ranking::ViceScum);
                            assert(false);
                        }
                    }
                    let vs = vs_opt.unwrap();
                    self.pending.push(ExchangePair { giver: vs, taker: vp });
                }
                self.pending.push(ExchangePair { giver: scum, taker: pres });
                self.phase = GamePhase::Pick { player: pres, options: n };
                self.trick_leader = pres;
                self.last_pick = None;
                let mut evs: Vec<GameEvent> = Vec::new();
                evs.push(GameEvent::StartPick);
                proof {
                    assert(self@.wf());
                }
                Ok(evs)
            },
            _ => Err(GameError::WrongPhase),
        }
    }

    /// First seat whose player carries `name`, if any.
    fn find_named(&self, name: &str) -> (res: Option<usize>)
        ensures
            match res {
                Some(i) => is_first_named(self@.names, name@, i as int),
                None => forall|k: int| 0 <= k < self@.names.len() ==> self@.names[k] != name@,
            },
    {
        let target: String = name.to_owned();
        let mut i: usize = 0;
        while i < self.players.len()
            invariant
                target@ == name@,
                0 <= i <= self.players@.len(),
                forall|k: int| 0 <= k < i ==> self@.names[k] != name@,
            decreases self.players@.len() - i,
        {
            if self.players[i].name == target {
                return Some(i);
            }
            i += 1;
        }
        None
    }

    /// Number of players still holding cards.
    fn count_alive(&self) -> (c: usize)
        ensures
            c as int == count_nonempty(self@.hands),
    {
        let mut c: usize = 0;
        let mut i: usize = 0;
        while i < self.players.len()
            invariant
                0 <= i <= self.players@.len(),
                c as int == count_nonempty(self@.hands.take(i as int)),
                c <= i,
            decreases self.players@.len() - i,
        {
            proof {
                assert(self@.hands.take(i + 1).drop_last() =~= self@.hands.take(i as int));
                assert(self@.hands.take(i + 1).last() == self@.hands[i as int]);
            }
            if !self.players[i].hand.is_empty() {
                c += 1;
            }
            i += 1;
        }
        proof {
            assert(self@.hands.take(self@.hands.len() as int) =~= self@.hands);
        }
        c
    }

    /// The next player still holding cards, walking clockwise from `p`.
    fn next_active(&self, p: usize) -> (q: usize)
        requires
            (p as int) < self@.hands.len(),
            exists|q: int|
                0 <= q < self@.hands.len() && q != p && (#[trigger] self@.hands[q]).len() > 0,
        ensures
            is_next_unfinished(self@.hands, p as int, q as int),
    {
        let n = self.players.len();
        let mut j: usize = p + 1;
        while j < n
            invariant
                p < n,
                n == self@.hands.len(),
                p + 1 <= j <= n,
                forall|k: int| p < k < j ==> (#[trigger] self@.hands[k]).len() == 0,
            decreases n - j,
        {
            if !self.players[j].hand.is_empty() {
                return j;
            }
            j += 1;
        }
        let mut j2: usize = 0;
        while j2 < p
            invariant
                p < n,
                n == self@.hands.len(),
                0 <= j2 <= p,
                forall|k: int| p < k < n ==> (#[trigger] self@.hands[k]).len() == 0,
                forall|k: int| 0 <= k < j2 ==> (#[trigger] self@.hands[k]).len() == 0,
            decreases p - j2,
        {
            if !self.players[j2].hand.is_empty() {
                return j2;
            }
            j2 += 1;
        }
        proof {
            let qq = choose|qq: int|
                0 <= qq < self@.hands.len() && qq != p && (#[trigger] self@.hands[qq]).len() > 0;
            assert(false);
        }
        p
    }

    /// Applies an already-validated play by the active player: removes the
    /// cards, settles the trick, and runs finish and round-end
    /// bookkeeping.
    #[verifier::rlimit(60)]
    fn apply_play(&mut self, active: usize, chosen: Vec<Card>) -> (evs: Vec<GameEvent>)
        requires
            old(self)@.wf(),
            old(self)@.phase == (GamePhase::Turn { player: active }),
            chosen@.no_duplicates(),
            chosen@.len() > 0,
            forall|k: int|
                0 <= k < chosen@.len() ==> old(self)@.hand(active as int).contains(
                    #[trigger] chosen@[k],
                ),
            play_legality(old(self)@, chosen@) is None,
        ensures
            final(self)@.wf(),
            post_accept_play(old(self)@, final(self)@, evs@, active as int, chosen@),
    {
        let ghost pre = self@;
        let ghost hand1 = remove_seq(pre.hand(active as int), chosen@);
        let ghost hands1 = pre.hands.update(active as int, hand1);
        let n = self.players.len();
        let set_rank: u8 = chosen[0].rank;
        let is4 = chosen.len() == 4;
        let cards_evt = copy_cards(&chosen);

        // remove the cards from the hand
        let mut pl = self.players.remove(active);
        let _played = pl.hand.play(&chosen);
        let now_empty = pl.hand.is_empty();
        let ghost plv = pl;
        let ghost players_mid = self.players@;
        self.players.insert(active, pl);
        proof {
            lemma_play_split_all_held(pre.hand(active as int), chosen@);
            lemma_remove_seq_props(pre.hand(active as int), chosen@);
            lemma_remove_seq_elements(pre.hand(active as int), chosen@);
            assert(self.players@ =~= players_mid.insert(active as int, plv));
            assert(self@.hands =~= hands1);
            assert(self@.names =~= pre.names);
            assert(self@.ranks =~= pre.ranks);
            lemma_count_nonempty_update(pre.hands, active as int, hand1);
        }
        let alive = self.count_alive();
        let ghost finished = hand1.len() == 0;
        let ghost round_over = finished && count_nonempty(hands1) == 1;

        let mut evs: Vec<GameEvent> = Vec::new();
        if is4 {
            evs.push(GameEvent::Bomb { player: active, cards: cards_evt });
        } else if now_empty {
            evs.push(GameEvent::Complete { player: active, cards: cards_evt });
        } else {
            evs.push(GameEvent::Play { player: active, cards: cards_evt });
        }

        // settle the pile
        if is4 {
            // a bomb clears the trick outright
            self.table.append(&mut self.pile);
            let mut tmp = copy_cards(&chosen);
            self.table.append(&mut tmp);
            proof {
                assert(self.table@ =~= pre.table + pre.pile + chosen@);
            }
            self.active_len = 0;
        } else {
            let mut tmp = copy_cards(&chosen);
            self.pile.append(&mut tmp);
            self.active_len = chosen.len();
            self.active_rank = set_rank;
        }
        self.passes = 0;
        self.trick_leader = active;

        // finish and round-end bookkeeping
        if now_empty {
            let pos = self.finish_order.len();
            let rk = rank_of_position(pos, n);
            let mut pl2 = self.players.remove(active);
            pl2.rank = rk;
            let ghost pl2v = pl2;
            let ghost players_mid2 = self.players@;
            self.players.insert(active, pl2);
            proof {
                assert(self.players@ =~= players_mid2.insert(active as int, pl2v));
                assert(self@.hands =~= hands1);
                assert(self@.ranks =~= pre.ranks.update(
                    active as int,
                    rank_for_position(pre.finish_order.len() as int, n as int),
                ));
                assert(self@.names =~= pre.names);
            }
            self.finish_order.push(active);
            evs.push(GameEvent::Finish { player: active, rank: rk });
            if alive == 1 {
                // all but one player are out: the round ends
                proof {
                    lemma_count_nonempty_one(self@.hands);
                    let w = choose|w: int|
                        0 <= w < self@.hands.len() && (#[trigger] self@.hands[w]).len() > 0;
                    assert(w != active as int);
                    assert(0 <= w < self@.hands.len() && w != active as int && self@.hands[w].len()
                        > 0);
                }
                let qq = self.next_active(active);
                proof {
                    let ls = last_standing(self@.hands);
                    lemma_count_nonempty_unique(self@.hands, ls, qq as int);
                }
                let qrank = rank_of_position(n - 1, n);
                let mut pl3 = self.players.remove(qq);
                pl3.rank = qrank;
                let ghost pl3v = pl3;
                let ghost players_mid3 = self.players@;
                self.players.insert(qq, pl3);
                proof {
                    assert(self.players@ =~= players_mid3.insert(qq as int, pl3v));
                    assert(self@.hands =~= hands1);
                    assert(self@.names =~= pre.names);
                    assert(self@.ranks =~= pre.ranks.update(active as int, rk).update(
                        qq as int,
                        qrank,
                    ));
                }
                self.finish_order.push(qq);
                // sweep what remains of the trick off to the table
                self.table.append(&mut self.pile);
                self.active_len = 0;
                proof {
                    if !is4 {
                        assert(self.table@ =~= pre.table + pre.pile + chosen@);
                    }
                }
                evs.push(GameEvent::RoundFinish);
                self.phase = GamePhase::Restart;
            } else {
                proof {
                    assert(count_nonempty(hands1) == count_nonempty(pre.hands) - 1);
                    lemma_count_nonempty_bounds(hands1);
                    assert(count_nonempty(hands1) >= 2);
                    lemma_count_nonempty_other(self@.hands, active as int);
                }
                let nx = self.next_active(active);
                self.phase = GamePhase::Turn { player: nx };
            }
        } else {
            if is4 {
                self.phase = GamePhase::Turn { player: active };
            } else {
                proof {
                    assert(count_nonempty(hands1) == count_nonempty(pre.hands));
                    lemma_count_nonempty_other(self@.hands, active as int);
                }
                let nx = self.next_active(active);
                self.phase = GamePhase::Turn { player: nx };
            }
        }
        proof {
            let post = self@;
            let ghost fpos = pre.finish_order.len() as int;
            let ghost nn = pre.n();
            assert(is4 == is_bomb(chosen@));
            assert(now_empty == finished);
            assert(post.names == pre.names);
            assert(post.hands == hands1);
            if is4 || round_over {
                assert(post.pile == Seq::<Card>::empty());
                assert(post.table =~= pre.table + pre.pile + chosen@);
                assert(post.active_len == 0);
            } else {
                assert(post.pile == pre.pile + chosen@);
                assert(post.table == pre.table);
                assert(post.active_len == chosen@.len());
                assert(post.active_rank == chosen@[0].rank);
            }
            assert(post.passes == 0);
            assert(post.trick_leader == active as int);
            if !finished {
                assert(post.finish_order == pre.finish_order);
                assert(post.ranks == pre.ranks);
            } else if !round_over {
                assert(post.finish_order == pre.finish_order.push(active));
                assert(post.ranks =~= pre.ranks.update(
                    active as int,
                    rank_for_position(fpos, nn),
                ));
            } else {
                assert(post.finish_order == pre.finish_order.push(active).push(
                    last_standing(hands1) as usize,
                ));
                assert(post.ranks =~= pre.ranks.update(
                    active as int,
                    rank_for_position(fpos, nn),
                ).update(last_standing(hands1), rank_for_position(nn - 1, nn)));
            }
            assert(evs@.len() == if round_over {
                3int
            } else if finished {
                2int
            } else {
                1int
            });
            assert(post_accept_play(pre, self@, evs@, active as int, chosen@));
            lemma_post_play_wf(pre, self@, evs@, active as int, chosen@);
        }
        evs
    }

    /// Processes a play: `player` proposes the given card tokens against
    /// the current trick.  The play is validated (phase, identity, turn
    /// order, grammar, possession, set shape, rank order) and applied
    /// atomically, or rejected with the most specific error while the
    /// state stays untouched.
    #[verifier::loop_isolation(false)]
    #[verifier::rlimit(60)]
    pub fn play(&mut self, player: &str, tokens: &Vec<String>) -> (r: Result<
        Vec<GameEvent>,
        GameError,
    >)
        requires
            old(self)@.wf(),
        ensures
            final(self)@.wf(),
            match r {
                Ok(evs) => (old(self)@.phase matches GamePhase::Turn { player: p }
                    && play_decision(
                    old(self)@,
                    player@,
                    tokens@.map(|i: int, s: String| s@),
                ) matches Ok(cs) && post_accept_play(
                    old(self)@,
                    final(self)@,
                    evs@,
                    p as int,
                    cs,
                )),
                Err(e) => final(self)@ == old(self)@ && play_decision(
                    old(self)@,
                    player@,
                    tokens@.map(|i: int, s: String| s@),
                ) == Err::<Seq<Card>, GameError>(e),
            },
    {
        let ghost pre = self@;
        let ghost toks = tokens@.map(|i: int, s: String| s@);
        let active: usize = match self.phase {
            GamePhase::Turn { player } => player,
            _ => {
                return Err(GameError::WrongPhase);
            },
        };
        let idx_opt = self.find_named(player);
        let idx = match idx_opt {
            Some(i) => i,
            None => {
                proof {
                    if exists|i: int| is_first_named(pre.names, player@, i) {
                        let i0 = choose|i: int| is_first_named(pre.names, player@, i);
                        assert(pre.names[i0] == player@);
                        assert(false);
                    }
                }
                return Err(GameError::UnknownPlayer);
            },
        };
        proof {
            let f = first_named(pre.names, player@);
            assert(is_first_named(pre.names, player@, idx as int));
            assert(is_first_named(pre.names, player@, f)) by {
                assert(exists|i: int| is_first_named(pre.names, player@, i));
            }
            assert(f == idx as int) by {
                if f < idx as int {
                    assert(pre.names[f] != player@);
                } else if f > idx as int {
                    assert(pre.names[idx as int] != player@);
                }
            }
        }
        if idx != active {
            return Err(GameError::NotYourTurn);
        }
        // parse every token
        let mut sels: Vec<CardSel> = Vec::new();
        let mut i: usize = 0;
        while i < tokens.len()
            invariant
                0 <= i <= tokens@.len(),
                toks == tokens@.map(|ii: int, s: String| s@),
                sels@.len() == i,
                forall|k: int| 0 <= k < i ==> spec_parse(toks[k]) == Some(#[trigger] sels@[k]),
            decreases tokens@.len() - i,
        {
            proof {
                assert(toks[i as int] == tokens@[i as int]@);
            }
            match parse_token(tokens[i].as_str()) {
                Ok(sel) => {
                    sels.push(sel);
                },
                Err(_) => {
                    proof {
                        lemma_parse_all_fail(toks, i as int);
                    }
                    return Err(GameError::CardNotParsed);
                },
            }
            i += 1;
        }
        proof {
            lemma_parse_all_pointwise(toks, sels@);
        }
        // resolve the selections against the acting player's hand
        let ghost hand = pre.hand(active as int);
        let mut chosen: Vec<Card> = Vec::new();
        let mut j: usize = 0;
        proof {
            assert(sels@.skip(0) =~= sels@);
        }
        while j < sels.len()
            invariant
                0 <= j <= sels@.len(),
                self@ == pre,
                (active as int) < pre.hands.len(),
                hand == pre.hand(active as int),
                resolve_sels(hand, Seq::empty(), sels@) == resolve_sels(
                    hand,
                    chosen@,
                    sels@.skip(j as int),
                ),
            decreases sels@.len() - j,
        {
            let sel = sels[j];
            proof {
                assert(sels@.skip(j as int)[0] == sels@[j as int]);
                assert(sels@.skip(j as int).drop_first() =~= sels@.skip(j as int + 1));
            }
            match sel {
                CardSel::Exact(c) => {
                    if !self.players[active].hand.has(&c) {
                        proof {
                            assert(resolve_sels(hand, chosen@, sels@.skip(j as int))
                                == Err::<Seq<Card>, GameError>(GameError::CardNotHeld));
                        }
                        return Err(GameError::CardNotHeld);
                    }
                    if contains_card(&chosen, &c) {
                        proof {
                            assert(resolve_sels(hand, chosen@, sels@.skip(j as int))
                                == Err::<Seq<Card>, GameError>(GameError::IllegalSetShape));
                        }
                        return Err(GameError::IllegalSetShape);
                    }
                    chosen.push(c);
                },
                CardSel::AnyOfRank(rk) => {
                    let all4 = all_cards_of_rank(rk);
                    let mut add: Vec<Card> = Vec::new();
                    let mut t: usize = 0;
                    while t < all4.len()
                        invariant
                            0 <= t <= all4@.len(),
                            all4@ == rank_cards(rk),
                            self@ == pre,
                            (active as int) < pre.hands.len(),
                            hand == pre.hand(active as int),
                            add@ == rank_cards(rk).take(t as int).filter(
                                |c: Card| hand.contains(c) && !chosen@.contains(c),
                            ),
                        decreases all4@.len() - t,
                    {
                        let c = all4[t];
                        proof {
                            reveal(Seq::filter);
                            assert(rank_cards(rk).take(t + 1).drop_last() =~= rank_cards(
                                rk,
                            ).take(t as int));
                            assert(rank_cards(rk).take(t + 1).last() == c);
                        }
                        if self.players[active].hand.has(&c) && !contains_card(&chosen, &c) {
                            add.push(c);
                        }
                        t += 1;
                    }
                    proof {
                        assert(rank_cards(rk).take(rank_cards(rk).len() as int) =~= rank_cards(
                            rk,
                        ));
                        assert(add@ == expand_wildcard(hand, chosen@, rk));
                    }
                    if add.len() == 0 {
                        proof {
                            assert(resolve_sels(hand, chosen@, sels@.skip(j as int))
                                == Err::<Seq<Card>, GameError>(GameError::CardNotHeld));
                        }
                        return Err(GameError::CardNotHeld);
                    }
                    let mut add2 = add;
                    chosen.append(&mut add2);
                },
            }
            j += 1;
        }
        proof {
            assert(sels@.skip(sels@.len() as int) =~= Seq::<CardSel>::empty());
            assert(resolve_sels(hand, Seq::empty(), sels@) == Ok::<Seq<Card>, GameError>(
                chosen@,
            ));
            lemma_resolve_props(hand, Seq::empty(), sels@);
        }
        // shape and rank legality
        if chosen.len() == 0 {
            return Err(GameError::IllegalSetShape);
        }
        let first_rank = chosen[0].rank;
        let mut u: usize = 1;
        while u < chosen.len()
            invariant
                1 <= u <= chosen@.len() + 1,
                chosen@.len() >= 1,
                first_rank == chosen@[0].rank,
                self@ == pre,
                forall|k: int| 0 <= k < u ==> (#[trigger] chosen@[k]).rank == chosen@[0].rank,
            decreases chosen@.len() - u,
        {
            if chosen[u].rank != first_rank {
                proof {
                    assert(!uniform_rank(chosen@));
                }
                return Err(GameError::IllegalSetShape);
            }
            u += 1;
        }
        proof {
            assert(uniform_rank(chosen@));
        }
        let bomb = chosen.len() == 4;
        if !bomb && self.active_len > 0 {
            if chosen.len() != self.active_len {
                return Err(GameError::IllegalSetShape);
            }
            proof {
                assert(hand.contains(chosen@[0]));
                let kk = choose|kk: int| 0 <= kk < hand.len() && hand[kk] == chosen@[0];
            }
            let cstr = chosen[0].strength();
            let top = Card::new(self.active_rank, Suit::Spades);
            let astr = top.strength();
            if cstr <= astr {
                return Err(GameError::IllegalRankOrder);
            }
        }
        proof {
            assert(play_legality(pre, chosen@) is None);
            assert(play_decision(pre, player@, toks) == Ok::<Seq<Card>, GameError>(chosen@));
        }
        let evs = self.apply_play(active, chosen);
        Ok(evs)
    }

    /// Looks up the acting player and checks it is their turn; shared by
    /// the non-play inputs.  Returns the seat index or the rejection.
    fn resolve_actor(&self, name: &str, actor: usize) -> (r: Result<usize, GameError>)
        ensures
            match r {
                Ok(i) => i == actor && (exists|k: int| is_first_named(self@.names, name@, k))
                    && first_named(self@.names, name@) == actor as int,
                Err(e) => {
                    &&& (e == GameError::UnknownPlayer <==> !(exists|k: int|
                        is_first_named(self@.names, name@, k)))
                    &&& ((exists|k: int| is_first_named(self@.names, name@, k)) ==> e
                        == GameError::NotYourTurn && first_named(self@.names, name@)
                        != actor as int)
                },
            },
    {
        let idx_opt = self.find_named(name);
        match idx_opt {
            Some(i) => {
                proof {
                    let f = first_named(self@.names, name@);
                    assert(is_first_named(self@.names, name@, i as int));
                    assert(is_first_named(self@.names, name@, f)) by {
                        assert(exists|k: int| is_first_named(self@.names, name@, k));
                    }
                    assert(f == i as int) by {
                        if f < i as int {
                            assert(self@.names[f] != name@);
                        } else if f > i as int {
                            assert(self@.names[i as int] != name@);
                        }
                    }
                }
                if i == actor {
                    Ok(i)
                } else {
                    Err(GameError::NotYourTurn)
                }
            },
            None => {
                proof {
                    if exists|k: int| is_first_named(self@.names, name@, k) {
                        let i0 = choose|k: int| is_first_named(self@.names, name@, k);
                        assert(self@.names[i0] == name@);
                        assert(false);
                    }
                }
                Err(GameError::UnknownPlayer)
            },
        }
    }

    /// Processes a pass.  Legal only in a turn, for the active player,
    /// once the trick is open; when every other active player has passed,
    /// the trick clears and its winner leads the next one.
    #[verifier::loop_isolation(false)]
    pub fn pass(&mut self, player: &str) -> (r: Result<Vec<GameEvent>, GameError>)
        requires
            old(self)@.wf(),
        ensures
            final(self)@.wf(),
            match r {
                Ok(evs) => (old(self)@.phase matches GamePhase::Turn { player: p }
                    && pass_decision(old(self)@, player@) is None && post_accept_pass(
                    old(self)@,
                    final(self)@,
                    evs@,
                    p as int,
                )),
                Err(e) => final(self)@ == old(self)@ && pass_decision(old(self)@, player@)
                    == Some(e),
            },
    {
        let ghost pre = self@;
        let active: usize = match self.phase {
            GamePhase::Turn { player } => player,
            _ => {
                return Err(GameError::WrongPhase);
            },
        };
        let idx = match self.resolve_actor(player, active) {
            Ok(i) => i,
            Err(e) => {
                return Err(e);
            },
        };
        if self.pile.len() == 0 {
            return Err(GameError::WrongPhase);
        }
        let alive = self.count_alive();
        let leader_alive = !self.players[self.trick_leader].hand.is_empty();
        let thr: usize = if leader_alive {
            alive - 1
        } else {
            alive
        };
        proof {
            lemma_count_nonempty_bounds(pre.hands);
            assert(thr as int == pre.pass_threshold());
            assert(pre.passes < thr as int);
        }
        let closes = self.passes + 1 >= thr;
        let mut evs: Vec<GameEvent> = Vec::new();
        evs.push(GameEvent::Skip { player: idx });
        if closes {
            self.table.append(&mut self.pile);
            self.active_len = 0;
            self.passes = 0;
            if leader_alive {
                self.phase = GamePhase::Turn { player: self.trick_leader };
            } else {
                proof {
                    assert(self@.hands =~= pre.hands);
                    lemma_count_nonempty_other(self@.hands, pre.trick_leader);
                }
                let q = self.next_active(self.trick_leader);
                self.trick_leader = q;
                self.phase = GamePhase::Turn { player: q };
            }
        } else {
            self.passes = self.passes + 1;
            proof {
                assert(self@.hands =~= pre.hands);
                lemma_count_nonempty_other(self@.hands, active as int);
            }
            let q = self.next_active(idx);
            self.phase = GamePhase::Turn { player: q };
        }
        proof {
            assert forall|i: int|
                0 <= i < self@.n() implies ((self@.hand(i).len() == 0) == self@.finished(i)) by {
                assert((pre.hand(i).len() == 0) == pre.finished(i));
                if pre.finished(i) {
                    let k = choose|k: int|
                        0 <= k < pre.finish_order.len() && pre.finish_order[k] as int == i;
                    assert(self@.finish_order[k] as int == i);
                }
                if self@.finished(i) {
                    let k = choose|k: int|
                        0 <= k < self@.finish_order.len() && self@.finish_order[k] as int == i;
                    assert(pre.finish_order[k] as int == i);
                }
            }
            assert(post_accept_pass(pre, self@, evs@, active as int));
            assert(self@.wf());
        }
        Ok(evs)
    }

    /// Records the picking player's choice among the offered options and
    /// opens the exchange stage.
    pub fn select(&mut self, player: &str, choice: u32) -> (r: Result<Vec<GameEvent>, GameError>)
        requires
            old(self)@.wf(),
        ensures
            final(self)@.wf(),
            match r {
                Ok(evs) => (old(self)@.phase matches GamePhase::Pick { player: p, options }
                    && select_decision(old(self)@, player@, choice) is None && {
                    let pair = old(self)@.pending.last();
                    &&& final(self)@ == GameView {
                        phase: GamePhase::Offer { giver: pair.giver, taker: pair.taker },
                        pending: old(self)@.pending.drop_last(),
                        last_pick: Some(choice),
                        ..old(self)@
                    }
                    &&& evs@.len() == 2
                    &&& (evs@[0] matches GameEvent::Pick { player: pk, choice: ch } && pk == p
                        && ch == choice)
                    &&& evs@[1] == GameEvent::StartExchange
                }),
                Err(e) => final(self)@ == old(self)@ && select_decision(old(self)@, player@, choice)
                    == Some(e),
            },
    {
        let ghost pre = self@;
        let (active, options): (usize, usize) = match self.phase {
            GamePhase::Pick { player, options } => (player, options),
            _ => {
                return Err(GameError::WrongPhase);
            },
        };
        let idx = match self.resolve_actor(player, active) {
            Ok(i) => i,
            Err(e) => {
                return Err(e);
            },
        };
        if choice >= options as u32 {
            return Err(GameError::BadSelection);
        }
        self.last_pick = Some(choice);
        let pair = match self.pending.pop() {
            Some(pair) => pair,
            None => {
                proof {
                    assert(false);
                }
                return Err(GameError::WrongPhase);
            },
        };
        self.phase = GamePhase::Offer { giver: pair.giver, taker: pair.taker };
        let mut evs: Vec<GameEvent> = Vec::new();
        evs.push(GameEvent::Pick { player: idx, choice });
        evs.push(GameEvent::StartExchange);
        proof {
            assert forall|i: int| 0 <= i < self@.n() implies self@.hand(i).len() > 0 by {
                assert(pre.hand(i).len() > 0);
            }
            let ghost pairv = pre.pending[pre.pending.len() - 1];
            assert((pairv.giver as int) < pre.n() && (pairv.taker as int) < pre.n() && pairv.giver
                != pairv.taker);
            assert(self@.wf());
        }
        Ok(evs)
    }

    /// The giver nominates a card to surrender; stores the nomination and
    /// waits for the taker to reciprocate.
    pub fn offer(&mut self, player: &str, card: &str) -> (r: Result<Vec<GameEvent>, GameError>)
        requires
            old(self)@.wf(),
        ensures
            final(self)@.wf(),
            match r {
                Ok(evs) => (old(self)@.phase matches GamePhase::Offer { giver, taker }
                    && offer_decision(old(self)@, player@, card@) matches Ok(c) && {
                    &&& final(self)@ == GameView {
                        phase: GamePhase::Exchange { giver, taker },
                        offered: Some(c),
                        ..old(self)@
                    }
                    &&& evs@.len() == 1
                    &&& (evs@[0] matches GameEvent::Offer { giver: g, taker: t } && g == giver
                        && t == taker)
                }),
                Err(e) => final(self)@ == old(self)@ && offer_decision(old(self)@, player@, card@)
                    == Err::<Card, GameError>(e),
            },
    {
        let ghost pre = self@;
        let (giver, taker): (usize, usize) = match self.phase {
            GamePhase::Offer { giver, taker } => (giver, taker),
            _ => {
                return Err(GameError::WrongPhase);
            },
        };
        let idx = match self.resolve_actor(player, giver) {
            Ok(i) => i,
            Err(e) => {
                return Err(e);
            },
        };
        let c: Card = match parse_token(card) {
            Ok(CardSel::Exact(c)) => c,
            _ => {
                return Err(GameError::CardNotParsed);
            },
        };
        if !self.players[giver].hand.has(&c) {
            return Err(GameError::CardNotHeld);
        }
        self.offered = Some(c);
        self.phase = GamePhase::Exchange { giver, taker };
        let mut evs: Vec<GameEvent> = Vec::new();
        evs.push(GameEvent::Offer { giver, taker });
        proof {
            assert(spec_parse(card@) == Some(CardSel::Exact(c)));
            assert(token_means(card@, CardSel::Exact(c)));
            lemma_token_card_valid(card@, c);
            assert forall|i: int| 0 <= i < self@.n() implies self@.hand(i).len() > 0 by {
                assert(pre.hand(i).len() > 0);
            }
            assert(self@.wf());
        }
        Ok(evs)
    }

    /// The taker reciprocates with a card of their own; executes the
    /// two-way transfer and advances to the next exchange or to the
    /// President's lead.
    pub fn accept(&mut self, player: &str, card: &str) -> (r: Result<Vec<GameEvent>, GameError>)
        requires
            old(self)@.wf(),
        ensures
            final(self)@.wf(),
            match r {
                Ok(evs) => (old(self)@.phase matches GamePhase::Exchange { giver, taker }
                    && accept_decision(old(self)@, player@, card@) matches Ok(back)
                    && old(self)@.offered matches Some(give) && {
                    let g = giver as int;
                    let t = taker as int;
                    let hands2 = old(self)@.hands.update(
                        g,
                        remove_first(old(self)@.hand(g), give).push(back),
                    ).update(t, remove_first(old(self)@.hand(t), back).push(give));
                    &&& final(self)@.hands == hands2
                    &&& final(self)@.names == old(self)@.names
                    &&& final(self)@.ranks == old(self)@.ranks
                    &&& final(self)@.finish_order == old(self)@.finish_order
                    &&& final(self)@.offered is None
                    &&& final(self)@.pending == if old(self)@.pending.len() > 0 {
                        old(self)@.pending.drop_last()
                    } else {
                        old(self)@.pending
                    }
                    &&& final(self)@.phase == if old(self)@.pending.len() > 0 {
                        GamePhase::Offer {
                            giver: old(self)@.pending.last().giver,
                            taker: old(self)@.pending.last().taker,
                        }
                    } else {
                        GamePhase::Turn { player: old(self)@.trick_leader as usize }
                    }
                    &&& evs@.len() == 1
                    &&& (evs@[0] matches GameEvent::Exchange { giver: g2, taker: t2 } && g2
                        == giver && t2 == taker)
                }),
                Err(e) => final(self)@ == old(self)@ && accept_decision(old(self)@, player@, card@)
                    == Err::<Card, GameError>(e),
            },
    {
        let ghost pre = self@;
        let (giver, taker): (usize, usize) = match self.phase {
            GamePhase::Exchange { giver, taker } => (giver, taker),
            _ => {
                return Err(GameError::WrongPhase);
            },
        };
        let idx = match self.resolve_actor(player, taker) {
            Ok(i) => i,
            Err(e) => {
                return Err(e);
            },
        };
        let back: Card = match parse_token(card) {
            Ok(CardSel::Exact(c)) => c,
            _ => {
                return Err(GameError::CardNotParsed);
            },
        };
        if !self.players[taker].hand.has(&back) {
            return Err(GameError::CardNotHeld);
        }
        let give: Card = match self.offered {
            Some(c) => c,
            None => {
                proof {
                    assert(false);
                }
                return Err(GameError::WrongPhase);
            },
        };
        proof {
            assert(spec_parse(card@) == Some(CardSel::Exact(back)));
            assert(token_means(card@, CardSel::Exact(back)));
            lemma_token_card_valid(card@, back);
        }
        // the giver surrenders the nomination and receives the reply
        let mut plg = self.players.remove(giver);
        let _ = plg.hand.remove_card(&give);
        plg.hand.put(back);
        let ghost plgv = plg;
        let ghost players_mid = self.players@;
        self.players.insert(giver, plg);
        proof {
            assert(self.players@ =~= players_mid.insert(giver as int, plgv));
            lemma_remove_first_len(pre.hand(giver as int), give);
        }
        // the taker surrenders the reply and receives the nomination
        let mut plt = self.players.remove(taker);
        let _ = plt.hand.remove_card(&back);
        plt.hand.put(give);
        let ghost pltv = plt;
        let ghost players_mid2 = self.players@;
        self.players.insert(taker, plt);
        let ghost g = giver as int;
        let ghost t = taker as int;
        let ghost hands2 = pre.hands.update(
            g,
            remove_first(pre.hand(g), give).push(back),
        ).update(t, remove_first(pre.hand(t), back).push(give));
        proof {
            assert(self.players@ =~= players_mid2.insert(taker as int, pltv));
            assert(self@.hands =~= hands2);
            assert(self@.names =~= pre.names);
            assert(self@.ranks =~= pre.ranks);
            lemma_remove_first_len(pre.hand(t), back);
        }
        self.offered = None;
        if self.pending.len() > 0 {
            let pair = match self.pending.pop() {
                Some(pair) => pair,
                None => {
                    proof {
                        assert(false);
                    }
                    return Err(GameError::WrongPhase);
                },
            };
            self.phase = GamePhase::Offer { giver: pair.giver, taker: pair.taker };
        } else {
            self.phase = GamePhase::Turn { player: self.trick_leader };
        }
        let mut evs: Vec<GameEvent> = Vec::new();
        evs.push(GameEvent::Exchange { giver, taker });
        proof {
            lemma_exchange_wf(pre, self@, g, t, give, back);
        }
        Ok(evs)
    }

    /// The game is between rounds: ranks are fixed and a new deal is
    /// awaited.
    pub fn is_over(&self) -> (r: bool)
        ensures
            r == (self@.phase == GamePhase::Restart),
    {
        match self.phase {
            GamePhase::Restart => true,
            _ => false,
        }
    }

    /// The kind of input the engine currently waits for.
    pub fn prompt(&self) -> (r: crate::input::InputType)
        ensures
            r == crate::input::input_type_of_phase(self@.phase),
    {
        crate::input::InputType::of_phase(&self.phase)
    }

    /// The option recorded by the last accepted pick, if any.
    pub fn last_selection(&self) -> (r: Option<u32>)
        ensures
            r == self@.last_pick,
    {
        self.last_pick
    }

    /// Number of cards in the current trick's pile.
    pub fn pile_size(&self) -> (n: usize)
        ensures
            n as int == self@.pile.len(),
    {
        self.pile.len()
    }

    /// Number of cards in tricks already won and cleared this round.
    pub fn table_size(&self) -> (n: usize)
        ensures
            n as int == self@.table.len(),
    {
        self.table.len()
    }

    /// The current phase.
    pub fn phase(&self) -> (r: GamePhase)
        ensures
            r == self@.phase,
    {
        self.phase
    }

    /// The name of the player the current phase waits on, if any.
    pub fn get_current_player(&self) -> (r: Option<&String>)
        requires
            self@.wf(),
        ensures
            match r {
                Some(name) => match self@.phase {
                    GamePhase::Turn { player } => name@ == self@.names[player as int],
                    GamePhase::Pick { player, options } => name@ == self@.names[player as int],
                    GamePhase::Offer { giver, taker } => name@ == self@.names[giver as int],
                    GamePhase::Exchange { giver, taker } => name@ == self@.names[taker as int],
                    _ => false,
                },
                None => self@.phase == GamePhase::Start || self@.phase == GamePhase::Restart,
            },
    {
        let idx: usize = match self.phase {
            GamePhase::Turn { player } => player,
            GamePhase::Pick { player, options: _ } => player,
            GamePhase::Offer { giver, taker: _ } => giver,
            GamePhase::Exchange { giver: _, taker } => taker,
            _ => {
                return None;
            },
        };
        Some(&self.players[idx].name)
    }

    /// The hand of the named player, if that player exists.
    pub fn get_hand(&self, name: &str) -> (r: Option<&Hand>)
        ensures
            match r {
                Some(h) => (exists|i: int| is_first_named(self@.names, name@, i)) && h@
                    == self@.hands[first_named(self@.names, name@)],
                None => !(exists|i: int| is_first_named(self@.names, name@, i)),
            },
    {
        let idx_opt = self.find_named(name);
        match idx_opt {
            Some(i) => {
                proof {
                    let f = first_named(self@.names, name@);
                    assert(is_first_named(self@.names, name@, f)) by {
                        assert(exists|k: int| is_first_named(self@.names, name@, k));
                    }
                    assert(f == i as int) by {
                        if f < i as int {
                            assert(self@.names[f] != name@);
                        } else if f > i as int {
                            assert(self@.names[i as int] != name@);
                        }
                    }
                }
                Some(&self.players[i].hand)
            },
            None => {
                proof {
                    if exists|k: int| is_first_named(self@.names, name@, k) {
                        let i0 = choose|k: int| is_first_named(self@.names, name@, k);
                        assert(self@.names[i0] == name@);
                        assert(false);
                    }
                }
                None
            },
        }
    }

    /// Read-only snapshot: phase, and every player's name, rank, card
    /// count and hand.
    pub fn status(&self) -> (r: GameStatus)
        ensures
            r.phase == self@.phase,
            r.names@.map(|i: int, s: String| s@) == self@.names,
            r.ranks@ == self@.ranks,
            r.counts@.len() == self@.n(),
            forall|i: int| 0 <= i < self@.n() ==> (#[trigger] r.counts@[i]) as int == self@.hands[i].len(),
            r.hands@.map(|i: int, h: Vec<Card>| h@) == self@.hands,
    {
        let mut names: Vec<String> = Vec::new();
        let mut ranks: Vec<Ranking> = Vec::new();
        let mut counts: Vec<usize> = Vec::new();
        let mut hands: Vec<Vec<Card>> = Vec::new();
        let mut i: usize = 0;
        while i < self.players.len()
            invariant
                0 <= i <= self.players@.len(),
                names@.len() == i,
                ranks@.len() == i,
                counts@.len() == i,
                hands@.len() == i,
                forall|k: int| 0 <= k < i ==> (#[trigger] names@[k])@ == self@.names[k],
                forall|k: int| 0 <= k < i ==> ranks@[k] == self@.ranks[k],
                forall|k: int| 0 <= k < i ==> (#[trigger] counts@[k]) as int == self@.hands[k].len(),
                forall|k: int| 0 <= k < i ==> (#[trigger] hands@[k])@ == self@.hands[k],
            decreases self.players@.len() - i,
        {
            names.push(self.players[i].name.clone());
            ranks.push(self.players[i].rank);
            counts.push(self.players[i].hand.len());
            hands.push(copy_cards(self.players[i].hand.cards()));
            i += 1;
        }
        let r = GameStatus { phase: self.phase, names, ranks, counts, hands };
        proof {
            assert(r.names@.map(|k: int, s: String| s@) =~= self@.names);
            assert(r.ranks@ =~= self@.ranks);
            assert(r.hands@.map(|k: int, h: Vec<Card>| h@) =~= self@.hands);
        }
        r
    }

    /// One of the two textual status views of the original front end:
    /// either the player roster or the phase.
    pub fn stat(&self, opt: GameStatOpt) -> (r: GameStatRes)
        ensures
            match opt {
                GameStatOpt::Players => (r matches GameStatRes::Players(ps) && {
                    &&& ps@.len() == self@.n()
                    &&& forall|i: int|
                        0 <= i < self@.n() ==> (#[trigger] ps@[i]).name@ == self@.names[i]
                            && ps@[i].rank == self@.ranks[i] && ps@[i].count as int
                            == self@.hands[i].len()
                }),
                GameStatOpt::GameState => r == GameStatRes::Phase(self@.phase),
            },
    {
        match opt {
            GameStatOpt::Players => {
                let mut ps: Vec<PlayerStat> = Vec::new();
                let mut i: usize = 0;
                while i < self.players.len()
                    invariant
                        0 <= i <= self.players@.len(),
                        ps@.len() == i,
                        forall|k: int|
                            0 <= k < i ==> (#[trigger] ps@[k]).name@ == self@.names[k]
                                && ps@[k].rank == self@.ranks[k] && ps@[k].count as int
                                == self@.hands[k].len(),
                    decreases self.players@.len() - i,
                {
                    ps.push(
                        PlayerStat {
                            name: self.players[i].name.clone(),
                            rank: self.players[i].rank,
                            count: self.players[i].hand.len(),
                        },
                    );
                    i += 1;
                }
                GameStatRes::Players(ps)
            },
            GameStatOpt::GameState => GameStatRes::Phase(self.phase),
        }
    }
}

/// Read-only snapshot of the running game.
#[derive(Debug)]
pub struct GameStatus {
    pub phase: GamePhase,
    pub names: Vec<String>,
    pub ranks: Vec<Ranking>,
    pub counts: Vec<usize>,
    pub hands: Vec<Vec<Card>>,
}

/// Which status view to render.
#[derive(Clone, Copy, Debug, PartialEq, Eq, Structural)]
pub enum GameStatOpt {
    Players,
    GameState,
}

/// One player's public standing.
#[derive(Debug)]
pub struct PlayerStat {
    pub name: String,
    pub rank: Ranking,
    pub count: usize,
}

/// A rendered status view.
#[derive(Debug)]
pub enum GameStatRes {
    Players(Vec<PlayerStat>),
    Phase(GamePhase),
}

/// Deck conservation: from the first deal on, the hands, the trick pile
/// and the cleared tricks together always hold exactly the 52 cards.
pub proof fn lemma_deck_conservation(v: GameView)
    requires
        v.wf(),
        !(v.phase is Start),
    ensures
        total_cards(v.hands) + v.pile.len() + v.table.len() == 52,
{
}

/// Finish-ordering idempotence: once a player has finished, any later
/// state of the same round (one that extends the finish order) reports
/// the same social rank for them.
pub proof fn lemma_finish_rank_stable(pre: GameView, post: GameView, i: int)
    requires
        pre.wf(),
        post.wf(),
        post.n() == pre.n(),
        pre.finish_order.len() <= post.finish_order.len(),
        post.finish_order.subrange(0, pre.finish_order.len() as int) == pre.finish_order,
        pre.finished(i),
    ensures
        post.ranks[i] == pre.ranks[i],
{
    let k = choose|k: int|
        0 <= k < pre.finish_order.len() && pre.finish_order[k] as int == i;
    assert(pre.ranks[pre.finish_order[k] as int] == rank_for_position(k, pre.n()));
    assert(post.finish_order[k] == pre.finish_order.subrange(
        0,
        pre.finish_order.len() as int,
    )[k]);
    assert(post.ranks[post.finish_order[k] as int] == rank_for_position(k, post.n()));
}

/// Turn exclusivity: a play or a pass from any existing player other
/// than the phase's active player is always decided as `NotYourTurn`
/// (and the `play`/`pass` contracts add that a rejected call leaves the
/// state untouched).
pub proof fn lemma_turn_exclusivity(v: GameView, p: usize, name: Seq<char>, toks: Seq<Seq<char>>)
    requires
        v.phase == (GamePhase::Turn { player: p }),
        exists|i: int| is_first_named(v.names, name, i),
        first_named(v.names, name) != p as int,
    ensures
        play_decision(v, name, toks) == Err::<Seq<Card>, GameError>(GameError::NotYourTurn),
        pass_decision(v, name) == Some(GameError::NotYourTurn),
{
}

/// Bomb override: a four-of-a-kind is legal against any active set,
/// whatever its declared rank or size, and an accepted bomb always
/// leaves the trick pile empty.
pub proof fn lemma_bomb_override(
    pre: GameView,
    post: GameView,
    evs: Seq<GameEvent>,
    p: int,
    cs: Seq<Card>,
)
    requires
        is_bomb(cs),
    ensures
        play_legality(pre, cs) is None,
        post_accept_play(pre, post, evs, p, cs) ==> post.pile.len() == 0 && post.active_len
            == 0,
{
}

/// Deterministic deal: two engines over the same number of seats, the
/// same seed and the same round counter deal identical hand partitions.
pub proof fn lemma_deal_deterministic(a: GameView, b: GameView, pa: GameView, pb: GameView)
    requires
        a.seed == b.seed,
        a.rounds == b.rounds,
        a.n() == b.n(),
        pa.hands.len() == a.n(),
        pb.hands.len() == b.n(),
        forall|p: int|
            0 <= p < a.n() ==> pa.hands[p] == deal_slice(
                shuffled(full_deck(), deal_key(a.seed, a.rounds)),
                a.n(),
                p,
            ),
        forall|p: int|
            0 <= p < b.n() ==> pb.hands[p] == deal_slice(
                shuffled(full_deck(), deal_key(b.seed, b.rounds)),
                b.n(),
                p,
            ),
    ensures
        pa.hands == pb.hands,
{
    assert(pa.hands =~= pb.hands);
}

} // verus!
