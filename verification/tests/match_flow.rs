//! Tests of the phase state machine, the accounting laws and the lobby.
use rustic_poker::card::Card;
use rustic_poker::deck::CardDeck;
use rustic_poker::error::AppError;
use rustic_poker::hand::Hand;
use rustic_poker::hand_rank::HandRank;
use rustic_poker::lobby::{Lobby, LobbySettings, Match};
use rustic_poker::phase::{
    ActionProgression, BettingRoundAction, DiscardedCards, PokerPhaseDrawingDealing,
};
use rustic_poker::player::{PeerAddress, Player, User};
use rustic_poker::poker::{GamePhase, PokerPhase};
use rustic_poker::projection::{
    HandCard, MatchStatePhaseSpecificsAsPlayer, get_phase_specifics, phase_player_views,
};
use rustic_poker::table::{GameTable, MatchStartPlayers};

fn three_player_phase(ante: u64) -> PokerPhase {
    let players = MatchStartPlayers {
        ordered_player_queue: vec![1, 2, 3],
        player_credits: vec![(1, 500), (2, 500), (3, 500)],
        dealer_id: 1,
    };
    GamePhase::new(42, players, ante, 0).poker_phase
}

fn two_player_phase(ante: u64) -> PokerPhase {
    let players = MatchStartPlayers {
        ordered_player_queue: vec![1, 2],
        player_credits: vec![(1, 500), (2, 500)],
        dealer_id: 1,
    };
    GamePhase::new(7, players, ante, 0).poker_phase
}

/// Runs the automatic steps of the current phase to completion and returns
/// the successor.
fn run_phase(mut phase: PokerPhase) -> PokerPhase {
    while !phase.is_phase_completed() {
        phase.act();
    }
    phase.next_phase().expect("the match is not over")
}

fn pot_total(phase: &PokerPhase) -> u64 {
    phase.get_table().credit_pots[0].1.total_credits
}

fn remaining(phase: &PokerPhase, p: u128) -> u64 {
    phase.get_table().lookup_remaining(p).unwrap()
}

fn bet_of(phase: &PokerPhase, p: u128) -> Option<u64> {
    let bets = phase.get_player_bet_amounts().unwrap();
    bets.iter().find(|e| e.0 == p).map(|e| e.1)
}

#[test]
fn betting_round_convergence() {
    // three players, antes of ten
    let phase = three_player_phase(10);
    let phase = run_phase(phase);  // ante -> dealing
    assert_eq!(pot_total(&phase), 30);
    let mut phase = run_phase(phase);  // dealing -> first betting
    assert!(matches!(phase, PokerPhase::FirstBetting(_)));

    phase.handle_betting_action(1, BettingRoundAction::Bet(30)).unwrap();
    phase.act();
    phase.handle_betting_action(2, BettingRoundAction::Call).unwrap();
    phase.act();
    phase.handle_betting_action(3, BettingRoundAction::Raise(50)).unwrap();
    phase.act();
    assert!(!phase.is_phase_completed());
    phase.handle_betting_action(1, BettingRoundAction::Call).unwrap();
    phase.act();
    phase.handle_betting_action(2, BettingRoundAction::Call).unwrap();
    phase.act();

    assert!(phase.is_phase_completed());
    let specifics = get_phase_specifics(&phase);
    match specifics.as_player(2) {
        MatchStatePhaseSpecificsAsPlayer::FirstBetting(v) => {
            assert_eq!(v.highest_bet_amount, 50);
            assert_eq!(v.self_bet_amount, 50);
        },
        other => panic!("unexpected phase payload: {other:?}"),
    }
    assert_eq!(bet_of(&phase, 1), Some(50));
    assert_eq!(bet_of(&phase, 2), Some(50));
    assert_eq!(bet_of(&phase, 3), Some(50));
    assert_eq!(pot_total(&phase), 180);
}

#[test]
fn bet_equal_to_high_bet_is_accepted() {
    let phase = two_player_phase(10);
    let phase = run_phase(phase);
    let mut phase = run_phase(phase);
    assert!(matches!(phase, PokerPhase::FirstBetting(_)));
    phase.handle_betting_action(1, BettingRoundAction::Bet(30)).unwrap();
    phase.act();
    // a bet standing exactly at the high bet acts as a call
    phase.handle_betting_action(2, BettingRoundAction::Bet(30)).unwrap();
    phase.act();
    assert!(phase.is_phase_completed());
    assert_eq!(pot_total(&phase), 80);
}

#[test]
fn bet_below_high_bet_is_rejected() {
    let phase = two_player_phase(10);
    let phase = run_phase(phase);
    let mut phase = run_phase(phase);
    phase.handle_betting_action(1, BettingRoundAction::Bet(30)).unwrap();
    phase.act();
    let r = phase.handle_betting_action(2, BettingRoundAction::Bet(20));
    assert!(matches!(r, Err(AppError::InvalidRequest(_))));
    // acting out of turn lacks the role: unauthorized
    let r = phase.handle_betting_action(1, BettingRoundAction::Bet(40));
    assert!(matches!(r, Err(AppError::Unauthorized(_))));
    // betting beyond the starting credits is rejected
    let r = phase.handle_betting_action(2, BettingRoundAction::Bet(600));
    assert!(matches!(r, Err(AppError::InvalidRequest(_))));
}

#[test]
fn fold_timeout_short_circuits_to_showdown() {
    let phase = two_player_phase(10);
    let phase = run_phase(phase);
    let mut phase = run_phase(phase);
    phase.handle_betting_action(1, BettingRoundAction::Bet(100)).unwrap();
    phase.act();
    // the active player stalls past the deadline and is folded
    match phase.get_action_progression() {
        Some(ActionProgression::Event(deadline_ms, stalled)) => {
            assert_eq!(deadline_ms, 15000);
            assert_eq!(stalled, 2);
        },
        other => panic!("unexpected progression: {other:?}"),
    }
    phase.handle_timeout(2).unwrap();
    phase.act();
    assert!(phase.is_phase_completed());
    let mut phase = phase.next_phase().unwrap();
    assert!(matches!(phase, PokerPhase::Showdown(_)));
    phase.act();
    assert!(phase.is_phase_completed());
    // the single remaining player took the whole pot
    assert_eq!(pot_total(&phase), 0);
    assert_eq!(remaining(&phase, 1), 510);
    assert_eq!(remaining(&phase, 2), 490);
    // actions in the wrong phase fail their precondition
    let r = phase.handle_betting_action(1, BettingRoundAction::Call);
    assert!(matches!(r, Err(AppError::PreconditionFailed(_))));
    let r = phase.handle_drawing_action(1, None);
    assert!(matches!(r, Err(AppError::PreconditionFailed(_))));
    assert!(phase.next_phase().is_none());
}

#[test]
fn timeout_at_the_high_bet_is_a_call() {
    let phase = two_player_phase(10);
    let phase = run_phase(phase);
    let mut phase = run_phase(phase);
    phase.handle_betting_action(1, BettingRoundAction::Bet(0)).unwrap();
    phase.act();
    phase.handle_betting_action(2, BettingRoundAction::Bet(0)).unwrap();
    phase.act();
    // player one already stands at the high bet: the timeout merely calls
    phase.handle_timeout(1).unwrap();
    match &phase {
        PokerPhase::FirstBetting(b) => assert_eq!(b.0.player_hands.len(), 2),
        other => panic!("unexpected phase: {other:?}"),
    }
}

#[test]
fn credits_conserved_through_a_full_match() {
    let phase = three_player_phase(10);
    let phase = run_phase(phase);
    let mut phase = run_phase(phase);
    phase.handle_betting_action(1, BettingRoundAction::Bet(20)).unwrap();
    phase.act();
    phase.handle_betting_action(2, BettingRoundAction::Call).unwrap();
    phase.act();
    phase.handle_betting_action(3, BettingRoundAction::Fold).unwrap();
    phase.act();
    assert!(phase.is_phase_completed());
    let mut phase = phase.next_phase().unwrap();
    assert!(matches!(phase, PokerPhase::DrawingDiscarding(_)));
    phase.handle_drawing_action(1, None).unwrap();
    phase.handle_drawing_action(2, None).unwrap();
    // a second declaration is rejected
    assert!(phase.handle_drawing_action(1, None).is_err());
    assert!(phase.is_phase_completed());
    let phase = {
        let mut p = phase;
        p.act();
        p.next_phase().unwrap()
    };
    let mut phase = run_phase(phase);  // replacement dealing -> second betting
    assert!(matches!(phase, PokerPhase::SecondBetting(_)));
    phase.handle_betting_action(1, BettingRoundAction::Call).unwrap();
    phase.act();
    assert!(phase.is_phase_completed());
    let mut phase = phase.next_phase().unwrap();
    assert!(matches!(phase, PokerPhase::Showdown(_)));
    phase.act();
    assert!(phase.is_phase_completed());
    // the conservation law, numerically: pots plus balances equal the
    // fifteen hundred credits the players brought
    let total = pot_total(&phase) + remaining(&phase, 1) + remaining(&phase, 2) + remaining(
        &phase,
        3,
    );
    assert_eq!(total, 1500);
}

#[test]
fn drawing_replenish_completes_a_royal_flush() {
    // the player holds four royal spades and a nine; the nine is declared
    // and the deck's top card is the ten of spades
    let players = MatchStartPlayers {
        ordered_player_queue: vec![1],
        player_credits: vec![(1, 500)],
        dealer_id: 1,
    };
    let game_table = GameTable::new(9, players);
    let hand = Hand::try_from("AS KS QS JS 9D").unwrap();
    let deck = CardDeck::from_cards(vec![
        Card::try_from("2C").unwrap(),
        Card::try_from("3C").unwrap(),
        Card::try_from("9D").unwrap(),
        Card::try_from("10S").unwrap(),
    ]);
    let mut phase = PokerPhaseDrawingDealing {
        game_table,
        card_deck: deck,
        phase_player_queue: vec![1],
        player_bets: Vec::new(),
        player_hands: vec![(1, hand)],
        player_discarded_cards: vec![(1, Some(vec![Card::try_from("9D").unwrap()]))],
    };
    phase.act();
    assert!(phase.is_phase_completed());
    assert_eq!(phase.player_hands[0].1.raw_hand_str, "AS KS QS JS 10S");
    assert_eq!(phase.player_hands[0].1.rank, HandRank::RoyalFlush);
}

#[test]
fn discards_must_come_from_the_hand() {
    let phase = two_player_phase(10);
    let phase = run_phase(phase);
    let mut phase = run_phase(phase);
    phase.handle_betting_action(1, BettingRoundAction::Bet(0)).unwrap();
    phase.act();
    phase.handle_betting_action(2, BettingRoundAction::Bet(0)).unwrap();
    phase.act();
    assert!(phase.is_phase_completed());
    let mut phase = phase.next_phase().unwrap();
    assert!(matches!(phase, PokerPhase::DrawingDiscarding(_)));
    // find a card that belongs to the other player's hand
    let foreign = match &phase {
        PokerPhase::DrawingDiscarding(p) => {
            let other = p.player_hands.iter().find(|e| e.0 == 2).unwrap();
            other.1.cards[0]
        },
        _ => unreachable!(),
    };
    let own = match &phase {
        PokerPhase::DrawingDiscarding(p) => {
            let own = p.player_hands.iter().find(|e| e.0 == 1).unwrap();
            own.1.cards[0]
        },
        _ => unreachable!(),
    };
    if foreign != own {
        let r = phase.handle_drawing_action(1, Some(DiscardedCards(vec![foreign])));
        assert!(r.is_err());
    }
    phase.handle_drawing_action(1, Some(DiscardedCards(vec![own]))).unwrap();
    phase.handle_drawing_action(2, None).unwrap();
    assert!(phase.is_phase_completed());
}

#[test]
fn projection_masks_foreign_cards_before_showdown() {
    let phase = two_player_phase(10);
    let phase = run_phase(phase);
    let phase = run_phase(phase);
    assert!(matches!(phase, PokerPhase::FirstBetting(_)));
    let views = phase_player_views(&phase, 1).unwrap();
    for (player_id, cards) in &views {
        for slot in cards {
            if *player_id == 1 {
                assert!(matches!(slot, HandCard::VisibleCard(_)));
            } else {
                assert!(matches!(slot, HandCard::HiddenCard));
            }
        }
    }
    // a stranger to the match sees nothing visible either
    let views = phase_player_views(&phase, 999).unwrap();
    for (_, cards) in &views {
        for slot in cards {
            assert!(matches!(slot, HandCard::HiddenCard));
        }
    }
}

#[test]
fn showdown_reveals_remaining_hands() {
    let phase = two_player_phase(10);
    let phase = run_phase(phase);
    let mut phase = run_phase(phase);
    phase.handle_betting_action(1, BettingRoundAction::Bet(0)).unwrap();
    phase.act();
    phase.handle_betting_action(2, BettingRoundAction::Bet(0)).unwrap();
    phase.act();
    let mut phase = phase.next_phase().unwrap();
    phase.handle_drawing_action(1, None).unwrap();
    phase.handle_drawing_action(2, None).unwrap();
    phase.act();
    let phase = phase.next_phase().unwrap();
    let mut phase = run_phase(phase);  // replacement dealing -> second betting
    phase.handle_betting_action(1, BettingRoundAction::Call).unwrap();
    phase.act();
    let mut phase = phase.next_phase().unwrap();
    assert!(matches!(phase, PokerPhase::Showdown(_)));
    phase.act();
    // at the showdown every remaining card is visible to everyone
    let views = phase_player_views(&phase, 999).unwrap();
    assert_eq!(views.len(), 2);
    for (_, cards) in &views {
        for slot in cards {
            assert!(matches!(slot, HandCard::VisibleCard(_)));
        }
    }
}

#[test]
fn discarded_cards_parse_from_codes() {
    assert!(DiscardedCards::try_from_proto(&vec![]).unwrap().is_none());
    let cards = DiscardedCards::try_from_proto(&vec![
        String::from("9D"),
        String::from("10s"),
    ])
    .unwrap()
    .unwrap();
    assert_eq!(cards.0.len(), 2);
    assert_eq!(cards.0[0].to_code(), "9D");
    assert_eq!(cards.0[1].to_code(), "10S");
    // the codes are a set: a repeated code names its card once
    let dup = DiscardedCards::try_from_proto(&vec![String::from("9D"), String::from("9d")])
        .unwrap()
        .unwrap();
    assert_eq!(dup.0.len(), 1);
    assert_eq!(dup.0[0].to_code(), "9D");
    let bad = DiscardedCards::try_from_proto(&vec![String::from("XX")]);
    assert!(bad.is_err());
}

#[test]
fn lobby_settings_are_validated() {
    assert!(LobbySettings::new(1, 6, 10).is_err());
    assert!(LobbySettings::new(2, 7, 10).is_err());
    let s = LobbySettings::new(2, 6, 25).unwrap();
    assert_eq!(s.min_players, 2);
    assert_eq!(s.max_players, 6);
    assert_eq!(s.ante_amount, 25);
    let d = LobbySettings::default();
    assert_eq!(d.min_players, 2);
    assert_eq!(d.max_players, 6);
    assert_eq!(d.ante_amount, 10);
}

#[test]
fn lobby_membership_and_matchmaking() {
    let mut lobby = Lobby::new(String::from("casual"), 11);
    assert!(lobby.is_host_player(11));
    assert!(lobby.is_player(11));
    lobby.add_player(22).unwrap();
    lobby.add_player(33).unwrap();
    assert!(lobby.is_player(22));
    // a game cannot start before matchmaking opens
    assert!(lobby.check_game_start_possible().is_err());
    lobby.start_matchmaking().unwrap();
    // membership is frozen while matchmaking
    assert!(lobby.add_player(44).is_err());
    assert!(lobby.rm_player(22).is_err());
    // everyone must accept before the game can start
    assert!(lobby.check_game_start_possible().is_err());
    lobby.set_match_acceptance(22, true).unwrap();
    lobby.set_match_acceptance(33, true).unwrap();
    assert!(lobby.check_game_start_possible().is_ok());
    // a withdrawn acceptance blocks the start again
    lobby.set_match_acceptance(22, false).unwrap();
    assert!(lobby.check_game_start_possible().is_err());
    lobby.set_match_acceptance(22, true).unwrap();
    let players = vec![
        Player { player_id: 11, total_credits: 500 },
        Player { player_id: 22, total_credits: 500 },
        Player { player_id: 33, total_credits: 500 },
    ];
    let m = Match::new(lobby.lobby_id, players, lobby.settings.ante_amount, 0).unwrap();
    assert_eq!(m.lobby_id, lobby.lobby_id);
    assert_eq!(m.player_ids.len(), 3);
    lobby.start_match(m);
    assert!(lobby.is_in_game());
    assert!(lobby.is_in_game_then_id().is_some());
    assert!(!lobby.is_matchmaking());
    assert!(lobby.add_player(44).is_err());
}

#[test]
fn match_rejects_bad_seatings() {
    // a player who cannot afford the ante
    let players = vec![
        Player { player_id: 1, total_credits: 5 },
        Player { player_id: 2, total_credits: 500 },
    ];
    assert!(Match::new(1, players, 10, 0).is_err());
    // a duplicate player
    let players = vec![
        Player { player_id: 1, total_credits: 500 },
        Player { player_id: 1, total_credits: 500 },
    ];
    assert!(Match::new(1, players, 10, 0).is_err());
    // too many seats
    let players: Vec<Player> = (1..=7).map(|i| Player { player_id: i, total_credits: 500 }).collect();
    assert!(Match::new(1, players, 10, 0).is_err());
}

#[test]
fn registered_accounts_start_with_fixed_credits() {
    let p = Player::register();
    assert_eq!(p.total_credits, 500);
    let q = Player::register();
    assert_ne!(p.player_id, q.player_id);
    let u = User::new(String::from("u1"), String::from("pat"));
    assert_eq!(u.credits, 1000);
    assert_eq!(u.name, "pat");
    let addr = PeerAddress(String::from("127.0.0.1:4000"));
    assert_eq!(addr.as_str(), "127.0.0.1:4000");
}

#[test]
fn error_kinds_carry_their_messages() {
    let e = AppError::invalid_request("bad card");
    assert_eq!(e.message(), "bad card");
    assert!(matches!(e, AppError::InvalidRequest(_)));
    let e = AppError::not_found(77);
    assert!(matches!(e, AppError::NotFound(77)));
}
