//! Tests of the card model and the hand evaluator.
use std::cmp::Ordering;

use rand::seq::SliceRandom;

use rustic_poker::card::{Card, CardParseError, CardRank, CardSuit};
use rustic_poker::hand::Hand;
use rustic_poker::hand_rank::{HandParseError, HandRank};
use rustic_poker::tie_breakers::TieBreakers;

fn hand(s: &str) -> Hand {
    Hand::try_from(s).unwrap()
}

#[test]
fn cmp() {
    let royal_flush: Hand = hand("AS KS QS JS 10S");
    let straight_flush: Hand = hand("9S 8S 7S 6S 5S");
    let four_of_a_kind: Hand = hand("2H 2S 2D 2C 9S");
    let full_house: Hand = hand("KH KD 5S 5D 5C");
    let flush: Hand = hand("3D 7D 9D JD AD");
    let straight: Hand = hand("8C 9D 10H JS QS");
    let three_of_a_kind: Hand = hand("7H 7S 7D AC 2H");
    let two_pair: Hand = hand("AH AD 3S 3H 6C");
    let pair: Hand = hand("10S 10H 8D 7C 2S");
    let high_card: Hand = hand("QD 9H 7C 5S 3H");
    let hands_sorted = [
        royal_flush,
        straight_flush,
        four_of_a_kind,
        full_house,
        flush,
        straight,
        three_of_a_kind,
        two_pair.clone(),
        pair,
        high_card.clone(),
    ];
    let mut hands_rand = hands_sorted.clone();
    let mut rng = rand::rng();
    hands_rand.shuffle(&mut rng);
    hands_rand.sort_by(|a, b| b.cmp(a));
    for i in 0..hands_sorted.len() {
        assert_eq!(hands_sorted[i].cmp(&hands_rand[i]), Ordering::Equal);
    }
    let royal_flush_s: Hand = hand("AS KS QS JS 10S");
    let royal_flush_h: Hand = hand("AH KH QH JH 10H");
    assert_eq!(royal_flush_s.cmp(&royal_flush_h), Ordering::Equal);
    let two_pair_high: Hand = hand("AH AD 3S 3H 6C");
    let two_pair_low: Hand = hand("AH AD 2S 2H 9C");
    assert_eq!(two_pair_high.cmp(&two_pair_low), Ordering::Greater);
}

#[test]
fn determine_winners() {
    let hands = vec![
        "AS KS QS JS 10S",
        "AS KS QS JS 10S",
        "10S JS QS KS AS",
        "9S 8S 7S 6S 5S",
        "2H 2S 2D 2C 9S",
    ];
    let hands: Vec<Hand> = hands.into_iter().map(|h| hand(h)).collect();
    let winners: Vec<String> = rustic_poker::hand::determine_winners(&hands)
        .into_iter()
        .map(|h| h.raw_hand_str)
        .collect();
    assert_eq!(
        winners,
        vec![String::from("AS KS QS JS 10S"), String::from("10S JS QS KS AS")],
    );
}

#[test]
fn from_card_arr() {
    let cards = [
        Card { rank: CardRank::Ace, suit: CardSuit::Diamonds },
        Card { rank: CardRank::Ace, suit: CardSuit::Hearts },
        Card { rank: CardRank::Ace, suit: CardSuit::Spades },
        Card { rank: CardRank::Ace, suit: CardSuit::Clubs },
        Card { rank: CardRank::Ten, suit: CardSuit::Diamonds },
    ];
    let hand_rank: Result<HandRank, _> = HandRank::try_from(cards);
    assert_eq!(hand_rank, Ok(HandRank::FourOfAKind));
}

#[test]
fn from_card_arr_fail_dupes() {
    let cards = [
        Card { rank: CardRank::Ace, suit: CardSuit::Diamonds },
        Card { rank: CardRank::Ace, suit: CardSuit::Hearts },
        Card { rank: CardRank::Ace, suit: CardSuit::Spades },
        Card { rank: CardRank::Ace, suit: CardSuit::Clubs },
        Card { rank: CardRank::Ace, suit: CardSuit::Diamonds },
    ];
    let hand_rank: Result<HandRank, _> = HandRank::try_from(cards);
    assert_eq!(hand_rank, Err(HandParseError::InvalidCards));
}

#[test]
fn partial_cmp() {
    assert!(
        TieBreakers::StraightFlush(CardRank::Ace)
            .partial_cmp(&TieBreakers::StraightFlush(CardRank::Ten))
            .is_some_and(|o| o == Ordering::Greater)
    );
    assert!(
        TieBreakers::FourOfAKind(vec![CardRank::Eight, CardRank::Four])
            .partial_cmp(&TieBreakers::FourOfAKind(vec![CardRank::Eight, CardRank::Ace]))
            .is_some_and(|o| o == Ordering::Less)
    );
    assert!(
        TieBreakers::FourOfAKind(vec![CardRank::Eight, CardRank::Ten])
            .partial_cmp(&TieBreakers::FourOfAKind(vec![CardRank::Eight, CardRank::Ten]))
            .is_some_and(|o| o == Ordering::Equal)
    );
    assert!(
        TieBreakers::StraightFlush(CardRank::Ace)
            .partial_cmp(&TieBreakers::FourOfAKind(vec![CardRank::Eight, CardRank::Ten]))
            .is_none()
    );
}

#[test]
fn card_parse_format_round_trip() {
    // every card code survives format-then-parse unchanged
    let rank_codes = ["2", "3", "4", "5", "6", "7", "8", "9", "10", "J", "Q", "K", "A"];
    let suit_codes = ["D", "H", "C", "S"];
    for r in rank_codes {
        for s in suit_codes {
            let code = format!("{r}{s}");
            let card = Card::try_from(code.as_str()).unwrap();
            assert_eq!(card.to_code(), code);
        }
    }
    // parsing is case-insensitive, formatting is canonical upper case
    let card = Card::try_from("10h").unwrap();
    assert_eq!(card.to_code(), "10H");
    let card = Card::try_from("as").unwrap();
    assert_eq!(card.to_code(), "AS");
}

#[test]
fn card_parse_rejects_malformed_codes() {
    assert_eq!(Card::try_from(""), Err(CardParseError::InvalidRank));
    assert_eq!(Card::try_from("S"), Err(CardParseError::InvalidRank));
    assert_eq!(Card::try_from("1S"), Err(CardParseError::InvalidRank));
    assert_eq!(Card::try_from("11S"), Err(CardParseError::InvalidRank));
    assert_eq!(Card::try_from("AX"), Err(CardParseError::InvalidSuit));
    assert_eq!(Card::try_from("10Z"), Err(CardParseError::InvalidSuit));
}

#[test]
fn hand_parse_rejects_malformed_hands() {
    assert_eq!(
        Hand::try_from("AS KS QS JS").unwrap_err(),
        HandParseError::InvalidLength(4)
    );
    assert_eq!(
        Hand::try_from("AS KS QS JS 10S 9S").unwrap_err(),
        HandParseError::InvalidLength(6)
    );
    assert_eq!(
        Hand::try_from("AS KS QS JS XX").unwrap_err(),
        HandParseError::InvalidCards
    );
    assert_eq!(
        Hand::try_from("AS AS QS JS 10S").unwrap_err(),
        HandParseError::InvalidCards
    );
}

#[test]
fn wheel_is_a_straight_with_top_card_five() {
    let wheel = hand("AS 2C 3D 4D 5C");
    assert_eq!(wheel.rank, HandRank::Straight);
    match &wheel.tie_breakers {
        Some(TieBreakers::Straight(top)) => assert_eq!(*top, CardRank::Five),
        other => panic!("unexpected tie breakers: {other:?}"),
    }
    // an ace between king and deuce does not make a straight
    let not_straight = hand("AH KH 2C 3D 4D");
    assert_eq!(not_straight.rank, HandRank::HighCard);
}

#[test]
fn royal_flushes_of_different_suits_tie() {
    let spades = hand("AS KS QS JS 10S");
    let hearts = hand("AH KH QH JH 10H");
    assert_eq!(spades.cmp(&hearts), Ordering::Equal);
    let winners = rustic_poker::hand::determine_winners(&vec![spades, hearts]);
    assert_eq!(winners.len(), 2);
}

#[test]
fn royal_flush_beats_straight_flush() {
    let hands = vec![hand("AS KS QS JS 10S"), hand("9S 8S 7S 6S 5S")];
    let winners = rustic_poker::hand::determine_winners(&hands);
    assert_eq!(winners.len(), 1);
    assert_eq!(winners[0].raw_hand_str, "AS KS QS JS 10S");
}

#[test]
fn four_of_a_kind_kicker_decides() {
    let low = hand("2H 2S 2D 2C 9S");
    let high = hand("2H 2S 2D 2C KS");
    assert_eq!(high.cmp(&low), Ordering::Greater);
    let winners = rustic_poker::hand::determine_winners(&vec![low, high]);
    assert_eq!(winners.len(), 1);
    assert_eq!(winners[0].raw_hand_str, "2H 2S 2D 2C KS");
    assert_eq!(winners[0].rank, HandRank::FourOfAKind);
    match &winners[0].tie_breakers {
        Some(TieBreakers::FourOfAKind(v)) => {
            assert_eq!(v.as_slice(), &[CardRank::Two, CardRank::King]);
        },
        other => panic!("unexpected tie breakers: {other:?}"),
    }
}

#[test]
fn six_high_straight_beats_the_wheel() {
    let wheel = hand("AS 2C 3D 4D 5C");
    assert_eq!(wheel.rank, HandRank::Straight);
    let six_high = hand("6C 7D 8H 9S 10C");
    let winners = rustic_poker::hand::determine_winners(&vec![wheel, six_high.clone()]);
    assert_eq!(winners.len(), 1);
    assert_eq!(winners[0].raw_hand_str, six_high.raw_hand_str);
}

#[test]
fn two_pair_kicker_decides() {
    let low = hand("AH AD 3S 3H 6C");
    let high = hand("AH AD 3S 3H 9C");
    assert_eq!(high.cmp(&low), Ordering::Greater);
    let winners = rustic_poker::hand::determine_winners(&vec![low, high]);
    assert_eq!(winners.len(), 1);
    assert_eq!(winners[0].raw_hand_str, "AH AD 3S 3H 9C");
}

#[test]
fn cards_to_string_joins_codes() {
    let h = hand("ad kd qd jd 10d");
    assert_eq!(h.raw_hand_str, "AD KD QD JD 10D");
    assert_eq!(Hand::cards_to_string(&h.cards), "AD KD QD JD 10D");
}

#[test]
fn fresh_deck_holds_fifty_two_distinct_cards() {
    let mut deck = rustic_poker::deck::CardDeck::new_shuffled();
    let mut seen: Vec<Card> = Vec::new();
    for _ in 0..52 {
        let c = deck.draw().expect("a fresh deck holds 52 cards");
        assert!(!seen.contains(&c), "duplicate card drawn");
        seen.push(c);
    }
    assert_eq!(deck.draw(), None);
}
