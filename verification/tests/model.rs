//! Tests of the card model, the token grammar, the collections and the
//! small front-end helpers.

use capitalism::card::{Card, RankOrder, Suit, all_cards_of_rank};
use capitalism::deck::{Deck, DealErrors, Hand, deal};
use capitalism::game::GamePhase;
use capitalism::input::{Input, InputType, Repl};
use capitalism::player::Player;
use capitalism::rank::{Ranking, rank_of_position};
use capitalism::state::{GameState, GameStateIterator};
use capitalism::token::{CardSel, parse_token, render_token};

fn strengths_descending() -> Vec<u8> {
    // display ranks from strongest to weakest in the climbing order
    vec![2, 1, 13, 12, 11, 10, 9, 8, 7, 6, 5, 4, 3]
}

#[test]
fn climbing_chain_is_total() {
    let order = strengths_descending();
    for i in 0..order.len() {
        for j in 0..order.len() {
            let a = Card::new(order[i], Suit::Spades);
            let b = Card::new(order[j], Suit::Hearts);
            let expect = if i < j {
                RankOrder::Greater
            } else if i == j {
                RankOrder::Equal
            } else {
                RankOrder::Less
            };
            assert_eq!(a.compare(&b), expect, "ranks {} vs {}", order[i], order[j]);
        }
    }
}

#[test]
fn strength_formula_exact_values() {
    assert_eq!(Card::new(3, Suit::Clubs).strength(), 0);
    assert_eq!(Card::new(4, Suit::Clubs).strength(), 1);
    assert_eq!(Card::new(10, Suit::Clubs).strength(), 7);
    assert_eq!(Card::new(11, Suit::Clubs).strength(), 8);
    assert_eq!(Card::new(12, Suit::Clubs).strength(), 9);
    assert_eq!(Card::new(13, Suit::Clubs).strength(), 10);
    assert_eq!(Card::new(1, Suit::Clubs).strength(), 11);
    assert_eq!(Card::new(2, Suit::Clubs).strength(), 12);
}

#[test]
fn two_is_strongest_and_three_weakest() {
    let two = Card::new(2, Suit::Clubs);
    let ace = Card::new(1, Suit::Clubs);
    let three = Card::new(3, Suit::Clubs);
    assert_eq!(two.compare(&ace), RankOrder::Greater);
    assert_eq!(ace.compare(&two), RankOrder::Less);
    for r in 1..=13u8 {
        if r != 3 {
            assert_eq!(three.compare(&Card::new(r, Suit::Diamonds)), RankOrder::Less);
        }
    }
}

#[test]
fn suit_never_breaks_ties() {
    let a = Card::new(9, Suit::Spades);
    let b = Card::new(9, Suit::Diamonds);
    assert_eq!(a.compare(&b), RankOrder::Equal);
    assert!(a.is_rank(9) && !a.is_rank(8));
    assert!(a.is_suit(Suit::Spades) && !a.is_suit(Suit::Diamonds));
}

#[test]
fn all_cards_of_rank_gives_one_per_suit() {
    let cards = all_cards_of_rank(7);
    assert_eq!(cards.len(), 4);
    assert_eq!(
        cards,
        vec![
            Card::new(7, Suit::Spades),
            Card::new(7, Suit::Hearts),
            Card::new(7, Suit::Clubs),
            Card::new(7, Suit::Diamonds),
        ]
    );
}

#[test]
fn round_trip_parse_for_every_card() {
    for rank in 1..=13u8 {
        for suit in Suit::all() {
            let card = Card::new(rank, suit);
            let text = render_token(&card);
            assert_eq!(parse_token(&text), Ok(CardSel::Exact(card)), "token {}", text);
            assert_eq!(Card::try_from(&text), Ok(card));
        }
    }
}

#[test]
fn parse_accepts_letters_glyphs_case_and_whitespace() {
    assert_eq!(
        parse_token("AS"),
        Ok(CardSel::Exact(Card::new(1, Suit::Spades)))
    );
    assert_eq!(
        parse_token("  13h\t"),
        Ok(CardSel::Exact(Card::new(13, Suit::Hearts)))
    );
    assert_eq!(
        parse_token("q♦"),
        Ok(CardSel::Exact(Card::new(12, Suit::Diamonds)))
    );
    assert_eq!(
        parse_token("10♣"),
        Ok(CardSel::Exact(Card::new(10, Suit::Clubs)))
    );
    assert_eq!(
        parse_token("jC"),
        Ok(CardSel::Exact(Card::new(11, Suit::Clubs)))
    );
    assert_eq!(parse_token("7*"), Ok(CardSel::AnyOfRank(7)));
    assert_eq!(parse_token(" 13* "), Ok(CardSel::AnyOfRank(13)));
}

#[test]
fn parse_rejects_bad_tokens() {
    for bad in [
        "", " ", "S", "3", "14S", "0S", "1X", "3 H", "3HH", "103S", "3S extra", "**", "3♤",
    ] {
        assert!(parse_token(bad).is_err(), "token {:?} should be rejected", bad);
    }
    // a wildcard is not a concrete card
    assert!(Card::try_from("7*").is_err());
}

#[test]
fn deck_from_range_draw_put_top_deal() {
    let suits = Suit::all();
    let mut deck = Deck::from_range(1, 14, &suits);
    assert_eq!(deck.len(), 52);
    let top = *deck.top().expect("full deck has a top");
    let drawn = deck.draw().expect("full deck draws");
    assert_eq!(top, drawn);
    assert_eq!(deck.len(), 51);
    deck.put(drawn);
    assert_eq!(deck.len(), 52);
    let dealt = deck.deal(5).expect("can deal five");
    assert_eq!(dealt.len(), 5);
    assert_eq!(deck.len(), 47);
    assert!(deck.deal(48).is_none());
}

#[test]
fn shuffle_keeps_the_same_cards_in_another_order() {
    let suits = Suit::all();
    let mut deck = Deck::from_range(1, 14, &suits);
    let before = deck.cards().clone();
    deck.shuffle(7);
    let after = deck.cards().clone();
    assert_ne!(before, after, "a seeded shuffle should disturb the sorted order");
    let mut sorted_before = before.clone();
    let mut sorted_after = after.clone();
    sorted_before.sort_by_key(|c| (c.rank, format!("{:?}", c.suit)));
    sorted_after.sort_by_key(|c| (c.rank, format!("{:?}", c.suit)));
    assert_eq!(sorted_before, sorted_after);
}

#[test]
fn deal_partitions_the_whole_deck() {
    let hands = deal(4, 11).expect("four hands");
    assert_eq!(hands.len(), 4);
    let mut all: Vec<Card> = Vec::new();
    for h in &hands {
        assert_eq!(h.len(), 13);
        all.extend(h.cards().iter().copied());
    }
    all.sort_by_key(|c| (c.rank, format!("{:?}", c.suit)));
    all.dedup();
    assert_eq!(all.len(), 52, "every card appears exactly once");
}

#[test]
fn deal_rejects_empty_and_oversized_tables() {
    assert_eq!(deal(0, 1).unwrap_err(), DealErrors::ZeroHands);
    assert_eq!(deal(53, 1).unwrap_err(), DealErrors::TooManyHands(53));
}

#[test]
fn deal_spreads_remainders_one_per_seat() {
    let hands = deal(3, 5).expect("three hands");
    let sizes: Vec<usize> = hands.iter().map(|h| h.len()).collect();
    assert_eq!(sizes, vec![18, 17, 17]);
}

#[test]
fn hand_has_put_play_intersection() {
    let mut hand = Hand::new();
    let c3 = Card::new(3, Suit::Clubs);
    let c9 = Card::new(9, Suit::Hearts);
    let c2 = Card::new(2, Suit::Spades);
    hand.put(c3);
    hand.put(c9);
    assert!(hand.has(&c3));
    assert!(!hand.has(&c2));
    assert!(hand.has_all(&vec![c3, c9]));
    assert!(!hand.has_all(&vec![c3, c2]));
    // play removes the held part of the selection and returns it
    let played = hand.play(&vec![c9, c2]).expect("one card matches");
    assert_eq!(played.cards(), &vec![c9]);
    assert_eq!(hand.cards(), &vec![c3]);
    assert!(hand.play(&vec![c2]).is_none(), "nothing matched");
    assert!(!hand.is_empty());
    let _ = hand.play(&vec![c3]);
    assert!(hand.is_empty());
}

#[test]
fn hand_get_suits_filters_in_order() {
    let mut hand = Hand::new();
    hand.put(Card::new(4, Suit::Hearts));
    hand.put(Card::new(9, Suit::Clubs));
    hand.put(Card::new(12, Suit::Hearts));
    let hearts = hand.get_suits(Suit::Hearts);
    assert_eq!(
        hearts,
        vec![Card::new(4, Suit::Hearts), Card::new(12, Suit::Hearts)]
    );
    assert!(hand.get_suits(Suit::Spades).is_empty());
}

#[test]
fn player_holds_and_plays_cards() {
    let mut p = Player::new(String::from("Lawrence"));
    assert_eq!(p.get_name(), "Lawrence");
    assert_eq!(p.get_ranking(), Ranking::Citizen);
    let c = Card::new(8, Suit::Diamonds);
    p.add_card(c);
    assert!(p.has(&c));
    let mut extra = Hand::new();
    extra.put(Card::new(5, Suit::Spades));
    p.add_hand(extra);
    assert!(p.has(&Card::new(5, Suit::Spades)));
    let played = p.play(&vec![c]).expect("held");
    assert_eq!(played.cards(), &vec![c]);
    assert!(!p.has(&c));
}

#[test]
fn ranking_order_labels_and_positions() {
    assert!(Ranking::President < Ranking::VicePresident);
    assert!(Ranking::VicePresident < Ranking::Citizen);
    assert!(Ranking::Citizen < Ranking::ViceScum);
    assert!(Ranking::ViceScum < Ranking::Scum);
    assert_eq!(Ranking::default(), Ranking::Citizen);
    assert_eq!(Ranking::President.label(), "President");
    assert_eq!(Ranking::ViceScum.label(), "Vice Scum");
    assert_eq!(Ranking::Scum.level(), 4);
    // two players: President and Scum only
    assert_eq!(rank_of_position(0, 2), Ranking::President);
    assert_eq!(rank_of_position(1, 2), Ranking::Scum);
    // three players: the middle seat is a Citizen
    assert_eq!(rank_of_position(1, 3), Ranking::Citizen);
    // four players: the vice titles appear
    assert_eq!(rank_of_position(1, 4), Ranking::VicePresident);
    assert_eq!(rank_of_position(2, 4), Ranking::ViceScum);
    assert_eq!(rank_of_position(3, 4), Ranking::Scum);
}

#[test]
fn input_types_match_phases_and_inputs() {
    assert_eq!(InputType::of_phase(&GamePhase::Start), InputType::Start);
    assert_eq!(InputType::of_phase(&GamePhase::Restart), InputType::Start);
    assert_eq!(
        InputType::of_phase(&GamePhase::Turn { player: 0 }),
        InputType::PlayCard
    );
    assert_eq!(
        InputType::of_phase(&GamePhase::Pick { player: 0, options: 3 }),
        InputType::SelectPile
    );
    assert_eq!(
        InputType::of_phase(&GamePhase::Offer { giver: 1, taker: 0 }),
        InputType::PlayCard
    );
    assert!(InputType::Start.validate(&Input::Begin));
    assert!(!InputType::Start.validate(&Input::Selection(0, 1)));
    assert!(InputType::PlayCard.validate(&Input::PlayCard(0, vec![])));
    assert!(InputType::SelectPile.validate(&Input::Selection(0, 2)));
    assert!(!InputType::SelectPile.validate(&Input::Begin));
}

#[test]
fn game_state_cycles_through_a_round() {
    let s = GameState::new();
    assert_eq!(s, GameState::Start);
    assert_eq!(s.next(), GameState::Play);
    assert_eq!(GameState::Restart.next(), GameState::Play);
    let mut it = GameStateIterator::new(GameState::Play);
    assert_eq!(it.next(), GameState::Pick);
    assert_eq!(it.next(), GameState::Exchange);
    assert_eq!(it.next(), GameState::Restart);
    assert_eq!(it.next(), GameState::Play);
    assert_eq!(
        GameState::of_phase(&GamePhase::Exchange { giver: 1, taker: 0 }),
        GameState::Exchange
    );
}

#[test]
fn repl_bundles_events_and_prompt() {
    let r = Repl::new(vec![], InputType::PlayCard);
    assert!(r.events().is_empty());
    assert_eq!(r.input(), InputType::PlayCard);
}
