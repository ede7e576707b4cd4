//! Card slots annotated with their discard state, the raw material of the
//! per-recipient projection.
use vstd::prelude::*;

use crate::card::Card;
use crate::hand::Hand;
use crate::kv::al_get;

verus! {

/// A card slot of a hand and whether its card has been discarded.
#[derive(Clone, Copy, PartialEq, Eq, Structural, Debug)]
pub struct StatefulCard {
    pub card: Card,
    pub discarded: bool,
}

/// Whether the card in slot `j` of the hand at `i` is pending discard.
pub open spec fn slot_discarded(
    hands: Seq<(u128, Hand)>,
    decls: Seq<(u128, Option<Vec<Card>>)>,
    i: int,
    j: int,
) -> bool {
    match al_get(decls, hands[i].0) {
        Some(Some(d)) => d@.contains(hands[i].1.cards@[j]),
        _ => false,
    }
}

/// Annotates every hand's slots with their discard state; without a
/// declaration map nothing is discarded.
pub fn get_stateful_cards(
    player_hands: &Vec<(u128, Hand)>,
    player_discarded_cards: Option<&Vec<(u128, Option<Vec<Card>>)>>,
) -> (r: Vec<(u128, Vec<StatefulCard>)>)
    requires
        crate::kv::keys_unique(match player_discarded_cards {
            Some(d) => d@,
            None => Seq::empty(),
        }),
    ensures
        r@.len() == player_hands@.len(),
        forall|i: int|
            0 <= i < r@.len() ==> (#[trigger] r@[i]).0 == player_hands@[i].0 && r@[i].1@.len()
                == 5,
        forall|i: int, j: int|
            0 <= i < r@.len() && 0 <= j < 5 ==> (#[trigger] r@[i].1@[j]).card
                == player_hands@[i].1.cards@[j] && r@[i].1@[j].discarded == slot_discarded(
                player_hands@,
                match player_discarded_cards {
                    Some(d) => d@,
                    None => Seq::empty(),
                },
                i,
                j,
            ),
{
    let gd = Ghost(
        match player_discarded_cards {
            Some(d) => d@,
            None => Seq::empty(),
        },
    );
    let mut r: Vec<(u128, Vec<StatefulCard>)> = Vec::new();
    let mut i: usize = 0;
    while i < player_hands.len()
        invariant
            0 <= i <= player_hands@.len(),
            crate::kv::keys_unique(gd@),
            gd@ == match player_discarded_cards {
                Some(d) => d@,
                None => Seq::<(u128, Option<Vec<Card>>)>::empty(),
            },
            r@.len() == i,
            forall|l: int|
                0 <= l < i ==> (#[trigger] r@[l]).0 == player_hands@[l].0 && r@[l].1@.len() == 5,
            forall|l: int, j: int|
                0 <= l < i && 0 <= j < 5 ==> (#[trigger] r@[l].1@[j]).card
                    == player_hands@[l].1.cards@[j] && r@[l].1@[j].discarded == slot_discarded(
                    player_hands@,
                    gd@,
                    l,
                    j,
                ),
        decreases player_hands@.len() - i,
    {
        let key = player_hands[i].0;
        let decl: Option<&Vec<Card>> = match player_discarded_cards {
            None => None,
            Some(map) => {
                match crate::kv::al_find(map, key) {
                    None => {
                        proof {
                            crate::kv::lemma_al_get_some(gd@, key);
                        }
                        None
                    },
                    Some(di) => {
                        proof {
                            crate::kv::lemma_al_get_at(gd@, key, di as int);
                        }
                        match &map[di].1 {
                            None => None,
                            Some(v) => Some(v),
                        }
                    },
                }
            },
        };
        let mut slots: Vec<StatefulCard> = Vec::new();
        let mut j: usize = 0;
        while j < 5
            invariant
                0 <= j <= 5,
                i < player_hands@.len(),
                key == player_hands@[i as int].0,
                slots@.len() == j,
                (match decl {
                    Some(v) => al_get(gd@, key) == Some(Some(*v)),
                    None => al_get(gd@, key) is None || al_get(gd@, key) == Some(
                        None::<Vec<Card>>,
                    ),
                }),
                forall|l: int|
                    0 <= l < j ==> (#[trigger] slots@[l]).card
                        == player_hands@[i as int].1.cards@[l] && slots@[l].discarded
                        == slot_discarded(player_hands@, gd@, i as int, l),
            decreases 5 - j,
        {
            let card = player_hands[i].1.cards[j];
            let discarded = match decl {
                None => false,
                Some(v) => contains_card_slice(v, card),
            };
            slots.push(StatefulCard { card, discarded });
            j = j + 1;
        }
        r.push((key, slots));
        i = i + 1;
    }
    r
}

fn contains_card_slice(v: &Vec<Card>, c: Card) -> (r: bool)
    ensures
        r == v@.contains(c),
{
    let mut i: usize = 0;
    while i < v.len()
        invariant
            0 <= i <= v@.len(),
            forall|j: int| 0 <= j < i ==> v@[j] != c,
        decreases v@.len() - i,
    {
        if v[i] == c {
            return true;
        }
        i = i + 1;
    }
    false
}

} // verus!
