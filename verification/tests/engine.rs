//! Scenario tests that drive the whole engine: dealing, turn order,
//! legality, bombs, finishing, ranks, and the pick/exchange stage.

use capitalism::card::{Card, Suit};
use capitalism::event::GameEvent;
use capitalism::game::{Config, ConfigError, Game, GameError, GamePhase, GameStatOpt, GameStatRes};
use capitalism::rank::Ranking;
use capitalism::token::render_token;

fn names3() -> Vec<String> {
    vec!["Lawrence".to_string(), "Timothy".to_string(), "James".to_string()]
}

fn names2() -> Vec<String> {
    vec!["Ada".to_string(), "Bob".to_string()]
}

fn token(c: &Card) -> String {
    render_token(c)
}

fn current_name(g: &Game) -> String {
    g.get_current_player().expect("someone is active").clone()
}

fn counts_sum(g: &Game) -> usize {
    g.status().counts.iter().sum()
}

fn assert_conserved(g: &Game) {
    assert_eq!(
        counts_sum(g) + g.pile_size() + g.table_size(),
        52,
        "hands plus pile plus cleared tricks must always hold the deck"
    );
}

fn hand_of(g: &Game, name: &str) -> Vec<Card> {
    g.get_hand(name).expect("player exists").cards().clone()
}

/// Plays greedily (lowest legal single, else pass) until the round ends.
/// Checks conservation after every accepted call and that an assigned
/// rank never changes for the rest of the round.
fn drive_round(g: &mut Game) {
    let mut assigned: Vec<(String, Ranking)> = Vec::new();
    let mut guard = 0;
    while !g.is_over() {
        guard += 1;
        assert!(guard < 10_000, "round driver did not terminate");
        let name = current_name(g);
        let mut hand = hand_of(g, &name);
        hand.sort_by_key(|c| c.strength());
        let mut played = false;
        for c in &hand {
            match g.play(&name, &vec![token(c)]) {
                Ok(evs) => {
                    for e in &evs {
                        if let GameEvent::Finish { player, rank } = e {
                            let finisher = g.status().names[*player].clone();
                            assigned.push((finisher, *rank));
                        }
                    }
                    played = true;
                    break;
                },
                Err(GameError::IllegalRankOrder) | Err(GameError::IllegalSetShape) => {},
                Err(other) => panic!("unexpected rejection {:?}", other),
            }
        }
        if !played {
            g.pass(&name).expect("pass is legal when nothing can be played");
        }
        assert_conserved(g);
        // finish ordering idempotence: once assigned, a rank never moves
        let st = g.status();
        for (who, rank) in &assigned {
            let i = st.names.iter().position(|n| n == who).unwrap();
            assert_eq!(st.ranks[i], *rank, "rank of {} changed mid-round", who);
        }
    }
    assert!(!assigned.is_empty());
    assert_eq!(assigned[0].1, Ranking::President, "first out is President");
}

/// Walks the pick/exchange stage of a freshly restarted round until play
/// opens.
fn drive_exchange(g: &mut Game) {
    let mut guard = 0;
    loop {
        guard += 1;
        assert!(guard < 100, "exchange driver did not terminate");
        let st = g.status();
        match g.phase() {
            GamePhase::Pick { player, .. } => {
                let name = st.names[player].clone();
                g.select(&name, 0).expect("president picks option 0");
            },
            GamePhase::Offer { giver, .. } => {
                let name = st.names[giver].clone();
                let card = hand_of(g, &name)[0];
                g.offer(&name, &token(&card)).expect("giver offers a held card");
            },
            GamePhase::Exchange { taker, .. } => {
                let name = st.names[taker].clone();
                let card = hand_of(g, &name)[0];
                g.accept(&name, &token(&card)).expect("taker reciprocates");
            },
            GamePhase::Turn { .. } => break,
            other => panic!("unexpected phase {:?}", other),
        }
        assert_conserved(g);
    }
}

#[test]
fn config_rejects_bad_tables() {
    let lone = Config::new();
    assert!(matches!(lone.start(1), Err(ConfigError::TooFewPlayers)));
    let mut one = Config::new();
    one.add_player("Solo");
    assert!(matches!(one.start(1), Err(ConfigError::TooFewPlayers)));
    let mut big = Config::new();
    for i in 0..53 {
        big.add_player(&format!("p{}", i));
    }
    assert!(matches!(big.start(1), Err(ConfigError::TooManyPlayers(53))));
}

#[test]
fn config_builds_a_playable_table() {
    let mut cfg = Config::new();
    cfg.add_player("Lawrence");
    cfg.add_player("Timothy");
    let st = cfg.status();
    assert_eq!(st.names, vec!["Lawrence".to_string(), "Timothy".to_string()]);
    let mut game = cfg.start(9).expect("two players are enough");
    let evs = game.start().expect("fresh game starts");
    assert_eq!(evs.len(), 1);
    assert!(matches!(evs[0], GameEvent::Start));
    assert_conserved(&game);
}

#[test]
fn deterministic_deal_with_fixed_seed() {
    let mut g1 = Game::init(names3(), 42).unwrap();
    let mut g2 = Game::init(names3(), 42).unwrap();
    g1.start().unwrap();
    g2.start().unwrap();
    assert_eq!(g1.status().hands, g2.status().hands);
    // and a different seed deals differently
    let mut g3 = Game::init(names3(), 43).unwrap();
    g3.start().unwrap();
    assert_ne!(g1.status().hands, g3.status().hands);
}

#[test]
fn seeded_shuffle_disturbs_the_sorted_deck() {
    let mut g = Game::init(names2(), 1).unwrap();
    g.start().unwrap();
    // were the shuffle the identity, seat 0 would hold the first 26 cards
    // of the rank-major factory order
    let mut factory: Vec<Card> = Vec::new();
    for rank in 1..=13u8 {
        for suit in Suit::all() {
            factory.push(Card::new(rank, suit));
        }
    }
    let hand0 = g.status().hands[0].clone();
    assert_eq!(hand0.len(), 26);
    assert_ne!(hand0, factory[..26].to_vec());
}

#[test]
fn initial_deal_sizes_and_three_of_clubs_lead() {
    let mut g = Game::init(names3(), 7).unwrap();
    g.start().unwrap();
    let mut sizes = g.status().counts.clone();
    sizes.sort();
    assert_eq!(sizes, vec![17, 17, 18]);
    let leader = current_name(&g);
    let hand = hand_of(&g, &leader);
    assert!(
        hand.contains(&Card::new(3, Suit::Clubs)),
        "the 3 of Clubs holder opens the round"
    );
    assert_conserved(&g);
}

#[test]
fn opening_play_passes_close_the_trick() {
    let mut g = Game::init(names3(), 7).unwrap();
    g.start().unwrap();
    let leader = current_name(&g);
    let evs = g.play(&leader, &vec!["3C".to_string()]).expect("opening single is legal");
    assert!(matches!(&evs[0], GameEvent::Play { cards, .. } if cards.len() == 1));
    assert_eq!(g.pile_size(), 1);
    // the two others pass; the trick clears and the leader leads again
    let p1 = current_name(&g);
    assert_ne!(p1, leader);
    let evs = g.pass(&p1).unwrap();
    assert!(matches!(evs[0], GameEvent::Skip { .. }));
    let p2 = current_name(&g);
    assert_ne!(p2, leader);
    g.pass(&p2).unwrap();
    assert_eq!(g.pile_size(), 0, "three-handed trick closes after two passes");
    assert_eq!(current_name(&g), leader, "the last player who played leads next");
    // an opener on an empty pile is always legal
    let hand = hand_of(&g, &leader);
    g.play(&leader, &vec![token(&hand[0])]).expect("any single opens a fresh trick");
    assert_conserved(&g);
}

#[test]
fn a_two_opener_cannot_be_beaten_by_any_single() {
    // find a seed where the leader of a two-player table holds a 2
    let mut tried = 0u64;
    loop {
        assert!(tried < 1000, "no suitable seed found");
        let mut g = Game::init(names2(), tried).unwrap();
        g.start().unwrap();
        let leader = current_name(&g);
        let two = hand_of(&g, &leader).into_iter().find(|c| c.rank == 2);
        if let Some(two) = two {
            g.play(&leader, &vec![token(&two)]).expect("any single opens an empty pile");
            let other = current_name(&g);
            let other_hand = hand_of(&g, &other);
            for c in &other_hand {
                assert_eq!(
                    g.play(&other, &vec![token(c)]).unwrap_err(),
                    GameError::IllegalRankOrder,
                    "no single should beat a 2"
                );
            }
            return;
        }
        tried += 1;
    }
}

#[test]
fn turn_exclusivity_leaves_state_unchanged() {
    let mut g = Game::init(names3(), 7).unwrap();
    g.start().unwrap();
    let active = current_name(&g);
    let other = g.status().names.iter().find(|n| **n != active).unwrap().clone();
    let before = g.status();
    let c = hand_of(&g, &other)[0];
    assert_eq!(g.play(&other, &vec![token(&c)]).unwrap_err(), GameError::NotYourTurn);
    assert_eq!(g.pass(&other).unwrap_err(), GameError::NotYourTurn);
    let after = g.status();
    assert_eq!(before.phase, after.phase);
    assert_eq!(before.hands, after.hands);
    assert_eq!(before.ranks, after.ranks);
    assert_eq!(current_name(&g), active);
}

#[test]
fn each_rejection_has_its_reason() {
    let mut g = Game::init(names3(), 7).unwrap();
    // playing before the deal is a phase error
    assert_eq!(
        g.play("Lawrence", &vec!["3C".to_string()]).unwrap_err(),
        GameError::WrongPhase
    );
    g.start().unwrap();
    // starting twice is a phase error
    assert_eq!(g.start().unwrap_err(), GameError::WrongPhase);
    let active = current_name(&g);
    // an unknown identity
    assert_eq!(
        g.play("Nobody", &vec!["3C".to_string()]).unwrap_err(),
        GameError::UnknownPlayer
    );
    assert_eq!(g.pass("Nobody").unwrap_err(), GameError::UnknownPlayer);
    // an unreadable token
    assert_eq!(
        g.play(&active, &vec!["zz".to_string()]).unwrap_err(),
        GameError::CardNotParsed
    );
    // a parsed card that is not held
    let hand = hand_of(&g, &active);
    let unheld = (1..=13u8)
        .flat_map(|r| Suit::all().into_iter().map(move |s| Card::new(r, s)))
        .find(|c| !hand.contains(c))
        .unwrap();
    assert_eq!(
        g.play(&active, &vec![token(&unheld)]).unwrap_err(),
        GameError::CardNotHeld
    );
    // an empty proposal has no shape
    assert_eq!(g.play(&active, &vec![]).unwrap_err(), GameError::IllegalSetShape);
    // a mixed-rank set has no shape
    let a = hand[0];
    let b = hand.iter().find(|c| c.rank != a.rank).unwrap();
    assert_eq!(
        g.play(&active, &vec![token(&a), token(b)]).unwrap_err(),
        GameError::IllegalSetShape
    );
    // the same card twice has no shape
    assert_eq!(
        g.play(&active, &vec![token(&a), token(&a)]).unwrap_err(),
        GameError::IllegalSetShape
    );
    // passing on an empty pile is a phase error
    assert_eq!(g.pass(&active).unwrap_err(), GameError::WrongPhase);
    // a response that does not out-rank the active single
    g.play(&active, &vec!["3C".to_string()]).unwrap();
    let next = current_name(&g);
    let next_hand = hand_of(&g, &next);
    if let Some(low) = next_hand.iter().find(|c| c.strength() <= 0) {
        assert_eq!(
            g.play(&next, &vec![token(low)]).unwrap_err(),
            GameError::IllegalRankOrder
        );
    }
    // inputs of the wrong kind for a turn
    assert_eq!(g.select(&next, 0).unwrap_err(), GameError::WrongPhase);
    assert_eq!(g.offer(&next, "3C").unwrap_err(), GameError::WrongPhase);
    assert_eq!(g.accept(&next, "3C").unwrap_err(), GameError::WrongPhase);
}

#[test]
fn bomb_beats_anything_and_clears_the_trick() {
    // find a seed where the responder holds a four-of-a-kind
    let mut tried = 0u64;
    loop {
        assert!(tried < 1000, "no bombing seed found");
        let mut g = Game::init(names2(), tried).unwrap();
        g.start().unwrap();
        let leader = current_name(&g);
        let other = g.status().names.iter().find(|n| **n != leader).unwrap().clone();
        let other_hand = hand_of(&g, &other);
        let bomb_rank = (1..=13u8)
            .find(|r| other_hand.iter().filter(|c| c.rank == *r).count() == 4);
        if let Some(rank) = bomb_rank {
            let mut lead_hand = hand_of(&g, &leader);
            lead_hand.sort_by_key(|c| c.strength());
            // the leader opens with their strongest single
            let strongest = lead_hand[lead_hand.len() - 1];
            g.play(&leader, &vec![token(&strongest)]).unwrap();
            // the bomb is accepted over it regardless of rank, via the
            // rank wildcard
            let evs = g.play(&other, &vec![format!("{}*", rank)]).expect(
                "a four-of-a-kind is always accepted",
            );
            assert!(
                matches!(&evs[0], GameEvent::Bomb { cards, .. } if cards.len() == 4),
                "expected a bomb event, got {:?}",
                evs
            );
            assert_eq!(g.pile_size(), 0, "a bomb wins the trick outright");
            assert_eq!(current_name(&g), other, "the bomber leads the next trick");
            assert_conserved(&g);
            return;
        }
        tried += 1;
    }
}

#[test]
fn full_round_ranks_and_exchange() {
    let mut g = Game::init(names3(), 11).unwrap();
    g.start().unwrap();
    drive_round(&mut g);
    assert!(g.is_over());
    assert_eq!(g.pile_size(), 0);
    // final ranks: one President, one Citizen, one Scum
    let mut ranks = g.status().ranks.clone();
    ranks.sort();
    assert_eq!(ranks, vec![Ranking::President, Ranking::Citizen, Ranking::Scum]);
    // a new round begins with the President picking
    let evs = g.start().expect("restart deals a new round");
    assert!(matches!(evs[0], GameEvent::StartPick));
    let (pres, options) = match g.phase() {
        GamePhase::Pick { player, options } => (player, options),
        other => panic!("expected the pick stage, got {:?}", other),
    };
    assert_eq!(options, 3);
    let st = g.status();
    let pres_name = st.names[pres].clone();
    assert_eq!(st.ranks[pres], Ranking::President);
    // a selection outside the offered options is rejected
    assert_eq!(g.select(&pres_name, 99).unwrap_err(), GameError::BadSelection);
    let evs = g.select(&pres_name, 1).expect("a pick in range is recorded");
    assert!(matches!(evs[0], GameEvent::Pick { choice: 1, .. }));
    assert!(matches!(evs[1], GameEvent::StartExchange));
    assert_eq!(g.last_selection(), Some(1));
    // the Scum owes the President the exchange offer
    let (giver, taker) = match g.phase() {
        GamePhase::Offer { giver, taker } => (giver, taker),
        other => panic!("expected the offer stage, got {:?}", other),
    };
    assert_eq!(g.status().ranks[giver], Ranking::Scum);
    assert_eq!(taker, pres);
    let scum_name = g.status().names[giver].clone();
    // only the giver may offer, and only a held card
    assert_eq!(g.offer(&pres_name, "3C").unwrap_err(), GameError::NotYourTurn);
    let scum_hand = hand_of(&g, &scum_name);
    let give = scum_hand[0];
    let unheld = (1..=13u8)
        .flat_map(|r| Suit::all().into_iter().map(move |s| Card::new(r, s)))
        .find(|c| !scum_hand.contains(c))
        .unwrap();
    assert_eq!(g.offer(&scum_name, &token(&unheld)).unwrap_err(), GameError::CardNotHeld);
    let evs = g.offer(&scum_name, &token(&give)).expect("offer of a held card");
    assert!(matches!(evs[0], GameEvent::Offer { .. }));
    // the taker reciprocates; the two cards swap hands
    let pres_hand = hand_of(&g, &pres_name);
    let back = pres_hand.iter().find(|c| **c != give).copied().unwrap();
    let evs = g.accept(&pres_name, &token(&back)).expect("acceptance executes the swap");
    assert!(matches!(evs[0], GameEvent::Exchange { .. }));
    assert!(hand_of(&g, &pres_name).contains(&give));
    assert!(hand_of(&g, &scum_name).contains(&back));
    assert_conserved(&g);
    // with three seats there is one exchange pair; the President now leads
    assert_eq!(g.phase(), GamePhase::Turn { player: pres });
    // and the next round is playable to its end as well
    drive_round(&mut g);
    assert!(g.is_over());
}

#[test]
fn two_player_round_president_and_scum() {
    let mut g = Game::init(names2(), 3).unwrap();
    g.start().unwrap();
    drive_round(&mut g);
    let mut ranks = g.status().ranks.clone();
    ranks.sort();
    assert_eq!(ranks, vec![Ranking::President, Ranking::Scum]);
}

#[test]
fn four_players_run_both_exchange_pairs() {
    let mut g = Game::init(
        vec![
            "Ada".to_string(),
            "Bob".to_string(),
            "Cyd".to_string(),
            "Dee".to_string(),
        ],
        17,
    )
    .unwrap();
    g.start().unwrap();
    drive_round(&mut g);
    let mut ranks = g.status().ranks.clone();
    ranks.sort();
    assert_eq!(
        ranks,
        vec![
            Ranking::President,
            Ranking::VicePresident,
            Ranking::ViceScum,
            Ranking::Scum,
        ]
    );
    let evs = g.start().unwrap();
    assert!(evs[0].is_over() == false);
    // the exchange stage runs the Scum/President pair, then the vice pair
    let mut offers = 0;
    let mut guard = 0;
    loop {
        guard += 1;
        assert!(guard < 50);
        let st = g.status();
        match g.phase() {
            GamePhase::Pick { player, .. } => {
                let name = st.names[player].clone();
                g.select(&name, 0).unwrap();
            },
            GamePhase::Offer { giver, taker } => {
                if offers == 0 {
                    assert_eq!(st.ranks[giver], Ranking::Scum);
                    assert_eq!(st.ranks[taker], Ranking::President);
                } else {
                    assert_eq!(st.ranks[giver], Ranking::ViceScum);
                    assert_eq!(st.ranks[taker], Ranking::VicePresident);
                }
                offers += 1;
                let name = st.names[giver].clone();
                let card = hand_of(&g, &name)[0];
                g.offer(&name, &token(&card)).unwrap();
            },
            GamePhase::Exchange { taker, .. } => {
                let name = st.names[taker].clone();
                let card = hand_of(&g, &name)[0];
                g.accept(&name, &token(&card)).unwrap();
            },
            GamePhase::Turn { player } => {
                assert_eq!(st.ranks[player], Ranking::President, "the President leads");
                break;
            },
            other => panic!("unexpected phase {:?}", other),
        }
    }
    assert_eq!(offers, 2, "a four-seat table exchanges twice");
    assert_conserved(&g);
}

#[test]
fn round_finish_event_is_the_only_closer() {
    assert!(GameEvent::RoundFinish.is_over());
    assert!(!GameEvent::Start.is_over());
    assert!(!GameEvent::Skip { player: 0 }.is_over());
}

#[test]
fn stat_views_report_players_and_phase() {
    let mut g = Game::init(names2(), 5).unwrap();
    g.start().unwrap();
    match g.stat(GameStatOpt::Players) {
        GameStatRes::Players(ps) => {
            assert_eq!(ps.len(), 2);
            assert_eq!(ps[0].name, "Ada");
            assert_eq!(ps[0].count + ps[1].count, 52);
            assert_eq!(ps[0].rank, Ranking::Citizen);
        },
        other => panic!("expected a roster, got {:?}", other),
    }
    match g.stat(GameStatOpt::GameState) {
        GameStatRes::Phase(ph) => assert!(matches!(ph, GamePhase::Turn { .. })),
        other => panic!("expected a phase, got {:?}", other),
    }
    assert_eq!(
        g.prompt(),
        capitalism::input::InputType::PlayCard,
        "a turn prompts for cards"
    );
}
