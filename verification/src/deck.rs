//! The draw pile and discard pile of a match.
//!
//! A fresh deck holds the 52 distinct cards, shuffled. Draws take the top
//! card; discards collect on the side until the end of the discarding stage
//! folds them back into the deck and reshuffles.
use vstd::prelude::*;

use rand::seq::SliceRandom;

use crate::card::{Card, CardRank, CardSuit};

verus! {

pub open spec fn rank_of_index(k: int) -> CardRank {
    if k == 0 {
        CardRank::Two
    } else if k == 1 {
        CardRank::Three
    } else if k == 2 {
        CardRank::Four
    } else if k == 3 {
        CardRank::Five
    } else if k == 4 {
        CardRank::Six
    } else if k == 5 {
        CardRank::Seven
    } else if k == 6 {
        CardRank::Eight
    } else if k == 7 {
        CardRank::Nine
    } else if k == 8 {
        CardRank::Ten
    } else if k == 9 {
        CardRank::Jack
    } else if k == 10 {
        CardRank::Queen
    } else if k == 11 {
        CardRank::King
    } else {
        CardRank::Ace
    }
}

pub open spec fn suit_of_index(k: int) -> CardSuit {
    if k == 0 {
        CardSuit::Diamonds
    } else if k == 1 {
        CardSuit::Hearts
    } else if k == 2 {
        CardSuit::Clubs
    } else {
        CardSuit::Spades
    }
}

/// The 52 cards of a full deck, in a fixed reference order.
pub open spec fn full_deck() -> Seq<Card> {
    Seq::new(52, |i: int| Card { rank: rank_of_index(i % 13), suit: suit_of_index(i / 13) })
}

/// The full deck lists 52 pairwise distinct cards.
pub proof fn lemma_full_deck_distinct()
    ensures
        full_deck().len() == 52,
        forall|i: int, j: int| 0 <= i < j < 52 ==> full_deck()[i] != full_deck()[j],
{
    assert forall|i: int, j: int| 0 <= i < j < 52 implies full_deck()[i] != full_deck()[j] by {
        if full_deck()[i] == full_deck()[j] {
            assert(rank_of_index(i % 13) == rank_of_index(j % 13));
            assert(suit_of_index(i / 13) == suit_of_index(j / 13));
            assert(0 <= i % 13 < 13 && 0 <= j % 13 < 13);
            assert(0 <= i / 13 < 4 && 0 <= j / 13 < 4);
            assert(i % 13 == j % 13);
            assert(i / 13 == j / 13);
            assert(i == (i / 13) * 13 + i % 13);
            assert(j == (j / 13) * 13 + j % 13);
        }
    }
}

/// Relies on rand's `SliceRandom::shuffle`: an in-place permutation of the
/// slice, so the elements are kept, only their order changes.
#[verifier::external_body]
pub(crate) fn shuffle_in_place<T>(v: &mut Vec<T>)
    ensures
        final(v)@.to_multiset() == old(v)@.to_multiset(),
{
    let mut rng = rand::rng();
    v.shuffle(&mut rng);
}

fn card_of_index(i: usize) -> (c: Card)
    requires
        i < 52,
    ensures
        c == full_deck()[i as int],
{
    let rank = match i % 13 {
        0 => CardRank::Two,
        1 => CardRank::Three,
        2 => CardRank::Four,
        3 => CardRank::Five,
        4 => CardRank::Six,
        5 => CardRank::Seven,
        6 => CardRank::Eight,
        7 => CardRank::Nine,
        8 => CardRank::Ten,
        9 => CardRank::Jack,
        10 => CardRank::Queen,
        11 => CardRank::King,
        _ => CardRank::Ace,
    };
    let suit = match i / 13 {
        0 => CardSuit::Diamonds,
        1 => CardSuit::Hearts,
        2 => CardSuit::Clubs,
        _ => CardSuit::Spades,
    };
    Card { rank, suit }
}

/// An ordered draw pile plus a discard pile.
#[derive(Clone, Debug)]
pub struct CardDeck {
    deck: Vec<Card>,
    discard_pile: Vec<Card>,
}

impl CardDeck {
    /// The draw pile, top card last.
    pub closed spec fn deck_view(self) -> Seq<Card> {
        self.deck@
    }

    /// The cards discarded since the last reshuffle.
    pub closed spec fn discards(self) -> Seq<Card> {
        self.discard_pile@
    }

    /// A fresh deck: the 52 distinct cards shuffled, nothing discarded.
    pub fn new_shuffled() -> (d: CardDeck)
        ensures
            d.deck_view().to_multiset() == full_deck().to_multiset(),
            d.discards().len() == 0,
    {
        let mut deck: Vec<Card> = Vec::new();
        let mut i: usize = 0;
        while i < 52
            invariant
                0 <= i <= 52,
                deck@ == full_deck().take(i as int),
            decreases 52 - i,
        {
            deck.push(card_of_index(i));
            proof {
                assert(full_deck().take(i + 1) =~= full_deck().take(i as int).push(
                    full_deck()[i as int],
                ));
            }
            i = i + 1;
        }
        proof {
            assert(full_deck().take(52) =~= full_deck());
        }
        shuffle_in_place(&mut deck);
        CardDeck { deck, discard_pile: Vec::new() }
    }

    /// A deck with the given draw pile, top card last, and nothing
    /// discarded; for replaying recorded deals.
    pub fn from_cards(cards: Vec<Card>) -> (d: CardDeck)
        ensures
            d.deck_view() == cards@,
            d.discards().len() == 0,
    {
        CardDeck { deck: cards, discard_pile: Vec::new() }
    }

    /// Removes and returns the top card, `None` on an empty pile.
    pub fn draw(&mut self) -> (r: Option<Card>)
        ensures
            final(self).discards() == old(self).discards(),
            old(self).deck_view().len() == 0 ==> r is None
                && final(self).deck_view() == old(self).deck_view(),
            old(self).deck_view().len() > 0 ==> r == Some(old(self).deck_view().last())
                && final(self).deck_view() == old(self).deck_view().drop_last(),
    {
        self.deck.pop()
    }

    /// Adds the given cards to the discard pile.
    pub fn discard_cards(&mut self, cards: Vec<Card>)
        ensures
            final(self).discards() == old(self).discards() + cards@,
            final(self).deck_view() == old(self).deck_view(),
    {
        let mut cards = cards;
        self.discard_pile.append(&mut cards);
    }

    /// Folds the discard pile back into the deck and reshuffles; the deck
    /// afterwards holds exactly the union of the two piles.
    pub fn handle_discard_end(&mut self)
        ensures
            final(self).deck_view().to_multiset() == old(self).deck_view().to_multiset().add(
                old(self).discards().to_multiset(),
            ),
            final(self).discards().len() == 0,
    {
        let gdeck = Ghost(self.deck@);
        let gdisc = Ghost(self.discard_pile@);
        self.deck.append(&mut self.discard_pile);
        proof {
            vstd::seq_lib::lemma_multiset_commutative(gdeck@, gdisc@);
        }
        shuffle_in_place(&mut self.deck);
    }
}

impl Default for CardDeck {
    /// A fresh deck, shuffled at construction.
    fn default() -> (d: CardDeck)
        ensures
            d.deck_view().to_multiset() == full_deck().to_multiset(),
            d.discards().len() == 0,
    {
        CardDeck::new_shuffled()
    }
}

} // verus!
