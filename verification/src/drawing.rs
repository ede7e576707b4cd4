//! The drawing phase: players declare discards in any order, then each
//! hand's declared cards are replaced from the deck, player by player.
use vstd::multiset::Multiset;
use vstd::prelude::*;

use crate::card::Card;
use crate::error::AppError;
use crate::hand::Hand;
use crate::kv::{
    al_contains, al_get, al_find, al_set, al_remove, keys_unique, lemma_al_get_at,
    lemma_al_get_some,
};
use crate::phase::{
    PokerPhaseDrawingDiscarding, PokerPhaseDrawingDealing, PokerPhaseFirstBetting,
    DiscardedCards, ActionProgression, cards_conserved, no_decls, live_eff, eff_of, kept_cards,
    decls_ok, decl_entry_ok, shift_queue, lemma_live_eff_remove, lemma_live_eff_update,
    lemma_live_eff_set_decl, lemma_queue_shape, hands_ok, selection_in_hand, drawn_before,
    replenished_upto,
};

verus! {

/// A sequence with no equal pair of cards has no duplicates.
pub proof fn lemma_hand_no_dupes(cards: Seq<Card>)
    requires
        !crate::hand_rank::has_dupes(cards),
    ensures
        cards.no_duplicates(),
{
    assert forall|i: int, j: int|
        0 <= i < cards.len() && 0 <= j < cards.len() && i != j implies cards[i] != cards[j] by {
        if i < j {
            assert(!(cards[i] == cards[j]));
        } else {
            assert(!(cards[j] == cards[i]));
        }
    }
}

/// Count of any card among the kept ones: one if the hand holds it outside
/// the discard selection, zero otherwise.
pub proof fn lemma_kept_counts(cards: Seq<Card>, d: Seq<Card>, c: Card)
    requires
        cards.no_duplicates(),
    ensures
        kept_cards(cards, d).to_multiset().count(c) == if cards.contains(c) && !d.contains(c) {
            1int
        } else {
            0int
        },
    decreases cards.len(),
{
    broadcast use vstd::seq_lib::group_to_multiset_ensures;

    if cards.len() == 0 {
        assert(kept_cards(cards, d) =~= Seq::<Card>::empty());
        assert(Seq::<Card>::empty().to_multiset() =~= Multiset::<Card>::empty());
    } else {
        let dl = cards.drop_last();
        let lastc = cards.last();
        assert(dl.no_duplicates()) by {
            assert forall|i: int, j: int|
                0 <= i < dl.len() && 0 <= j < dl.len() && i != j implies dl[i] != dl[j] by {
                assert(dl[i] == cards[i]);
                assert(dl[j] == cards[j]);
            }
        }
        lemma_kept_counts(dl, d, c);
        assert(!dl.contains(lastc)) by {
            if dl.contains(lastc) {
                let j = choose|j: int| 0 <= j < dl.len() && dl[j] == lastc;
                assert(cards[j] == cards[cards.len() - 1]);
            }
        }
        assert(cards.contains(c) <==> (dl.contains(c) || lastc == c)) by {
            if cards.contains(c) {
                let j = choose|j: int| 0 <= j < cards.len() && cards[j] == c;
                if j < cards.len() - 1 {
                    assert(dl[j] == c);
                }
            }
            if dl.contains(c) {
                let j = choose|j: int| 0 <= j < dl.len() && dl[j] == c;
                assert(cards[j] == c);
            }
        }
    }
}

/// The kept cards and the discard selection together are exactly the hand.
pub proof fn lemma_kept_partition(cards: Seq<Card>, d: Seq<Card>)
    requires
        cards.no_duplicates(),
        d.no_duplicates(),
        forall|j: int| 0 <= j < d.len() ==> cards.contains(#[trigger] d[j]),
    ensures
        kept_cards(cards, d).to_multiset().add(d.to_multiset()) == cards.to_multiset(),
{
    broadcast use vstd::seq_lib::group_to_multiset_ensures;
    broadcast use vstd::multiset::group_multiset_axioms;

    cards.lemma_multiset_has_no_duplicates();
    d.lemma_multiset_has_no_duplicates();
    assert forall|c: Card| #[trigger]
        kept_cards(cards, d).to_multiset().add(d.to_multiset()).count(c)
            == cards.to_multiset().count(c) by {
        lemma_kept_counts(cards, d, c);
        if d.contains(c) {
            let j = choose|j: int| 0 <= j < d.len() && d[j] == c;
            assert(cards.contains(c));
            assert(d.to_multiset().count(c) == 1) by {
                assert(d.to_multiset().count(c) > 0);
            }
            assert(cards.to_multiset().count(c) == 1) by {
                assert(cards.to_multiset().count(c) > 0);
            }
        } else {
            assert(d.to_multiset().count(c) == 0) by {
                if d.to_multiset().count(c) > 0 {
                    assert(d.contains(c));
                }
            }
            if cards.contains(c) {
                assert(cards.to_multiset().count(c) == 1) by {
                    assert(cards.to_multiset().count(c) > 0);
                }
            } else {
                assert(cards.to_multiset().count(c) == 0) by {
                    if cards.to_multiset().count(c) > 0 {
                        assert(cards.contains(c));
                    }
                }
            }
        }
    }
    assert(kept_cards(cards, d).to_multiset().add(d.to_multiset()) =~= cards.to_multiset());
}

/// Live cards never exceed five per hand.
pub proof fn lemma_live_eff_len_le(
    hands: Seq<(u128, Hand)>,
    decls: Seq<(u128, Option<Vec<Card>>)>,
)
    ensures
        live_eff(hands, decls).len() <= 5 * hands.len(),
    decreases hands.len(),
{
    broadcast use vstd::seq_lib::group_to_multiset_ensures;
    broadcast use vstd::multiset::group_multiset_axioms;

    if hands.len() > 0 {
        lemma_live_eff_len_le(hands.drop_last(), decls);
        let e = eff_of(hands.last().1, al_get(decls, hands.last().0));
        assert(e.len() <= 5) by {
            match al_get(decls, hands.last().0) {
                Some(Some(d)) => {
                    lemma_kept_len(hands.last().1.cards@, d@);
                    assert(kept_cards(hands.last().1.cards@, d@).to_multiset().len()
                        == kept_cards(hands.last().1.cards@, d@).len());
                },
                _ => {
                    assert(hands.last().1.cards@.to_multiset().len() == 5);
                },
            }
        }
    }
}

pub proof fn lemma_kept_len(cards: Seq<Card>, d: Seq<Card>)
    ensures
        kept_cards(cards, d).len() <= cards.len(),
    decreases cards.len(),
{
    if cards.len() > 0 {
        lemma_kept_len(cards.drop_last(), d);
    }
}

impl PokerPhaseDrawingDiscarding {
    /// Consumes the first betting round; nobody has declared yet.
    pub fn from_first_betting(betting_phase: PokerPhaseFirstBetting) -> (p:
        PokerPhaseDrawingDiscarding)
        requires
            betting_phase.0.wf(),
        ensures
            p.wf(),
            p.player_discarded_cards@.len() == 0,
            p.game_table == betting_phase.0.game_table,
            p.player_hands@ == betting_phase.0.player_hands@,
            p.player_bets@ == betting_phase.0.player_bets@,
            p.card_deck == betting_phase.0.card_deck,
    {
        let b = betting_phase.0;
        let phase_player_queue = b.game_table.clone_player_queue();
        let p = PokerPhaseDrawingDiscarding {
            game_table: b.game_table,
            card_deck: b.card_deck,
            phase_player_queue,
            player_bets: b.player_bets,
            player_hands: b.player_hands,
            player_discarded_cards: Vec::new(),
        };
        proof {
            assert(p.player_discarded_cards@ =~= no_decls());
        }
        p
    }

    /// Records the player's declaration: the named cards, or none to keep
    /// all. Declared cards move to the discard pile at once. A second
    /// declaration, a declaration by a player without a hand, or cards not
    /// in the player's hand are rejected.
    #[verifier::rlimit(100)]
    pub fn player_discards(&mut self, player_id: u128, cards: Option<DiscardedCards>) -> (r:
        Result<(), AppError>)
        requires
            old(self).wf(),
            cards matches Some(d) ==> d.wf(),
        ensures
            final(self).wf(),
            final(self).game_table == old(self).game_table,
            final(self).player_hands@ == old(self).player_hands@,
            final(self).player_bets@ == old(self).player_bets@,
            final(self).phase_player_queue@ == old(self).phase_player_queue@,
            // accepted exactly once per live player, and only for cards of
            // their own hand
            r is Ok <==> (!al_contains(old(self).player_discarded_cards@, player_id)
                && al_contains(old(self).player_hands@, player_id) && (match cards {
                None => true,
                Some(d) => selection_in_hand(
                    d.0@,
                    al_get(old(self).player_hands@, player_id)->Some_0,
                ),
            })),
            r is Ok ==> al_contains(final(self).player_discarded_cards@, player_id) && final(self).player_discarded_cards@.len() == old(self).player_discarded_cards@.len() + 1,
            r is Ok ==> forall|q: u128|
                q != player_id ==> al_get(final(self).player_discarded_cards@, q) == al_get(
                    old(self).player_discarded_cards@,
                    q,
                ),
            // the recorded declaration is exactly what was declared
            r is Ok ==> al_get(final(self).player_discarded_cards@, player_id) == Some(
                match cards {
                    None => None::<Vec<Card>>,
                    Some(d) => Some(d.0),
                },
            ),
            // declared cards enter the discard pile at once; the draw pile
            // never moves here
            r is Ok ==> (cards matches Some(d) ==> final(self).card_deck.discards() == old(self).card_deck.discards() + d.0@ && final(self).card_deck.deck_view() == old(self).card_deck.deck_view()),
            (r is Ok && cards is None) ==> final(self).card_deck == old(self).card_deck,
            r is Err ==> *final(self) == *old(self) && (r->Err_0 is InvalidRequest),
    {
        if al_contains_exec(&self.player_discarded_cards, player_id) {
            return Err(AppError::invalid_request("Player has already discarded cards!"));
        }
        let ih = match al_find(&self.player_hands, player_id) {
            Some(i) => i,
            None => {
                proof {
                    lemma_al_get_some(self.player_hands@, player_id);
                }
                return Err(
                    AppError::invalid_request("Player has no hand in the current match!"),
                );
            },
        };
        proof {
            lemma_al_get_at(self.player_hands@, player_id, ih as int);
        }
        let gcards = Ghost(cards);
        match cards {
            None => {
                let gs = Ghost(*self);
                al_set(&mut self.player_discarded_cards, player_id, None);
                proof {
                    lemma_discard_decl_wf(gs@, *self, player_id, ih as int, None);
                }
                Ok(())
            },
            Some(d) => {
                // every declared card must sit in the player's hand
                proof {
                    assert(gcards@ is Some);
                }
                let mut j: usize = 0;
                while j < d.0.len()
                    invariant
                        gcards@ is Some,
                        gcards@ == cards,
                        cards == Some(d),
                        self.wf(),
                        ih < self.player_hands@.len(),
                        self.player_hands@[ih as int].0 == player_id,
                        0 <= j <= d.0@.len(),
                        forall|l: int|
                            0 <= l < j ==> self.player_hands@[ih as int].1.cards@.contains(
                                #[trigger] d.0@[l],
                            ),
                    decreases d.0@.len() - j,
                {
                    if !hand_contains(&self.player_hands[ih].1, d.0[j]) {
                        proof {
                            lemma_al_get_at(self.player_hands@, player_id, ih as int);
                            assert(!selection_in_hand(
                                d.0@,
                                al_get(self.player_hands@, player_id)->Some_0,
                            ));
                        }
                        return Err(
                            AppError::invalid_request(
                                "Discarded cards selection includes cards not present in the player's hand!",
                            ),
                        );
                    }
                    j = j + 1;
                }
                proof {
                    lemma_al_get_at(self.player_hands@, player_id, ih as int);
                    assert(selection_in_hand(
                        d.0@,
                        al_get(self.player_hands@, player_id)->Some_0,
                    ));
                }
                let gs = Ghost(*self);
                let dcopy = copy_cards(&d.0);
                self.card_deck.discard_cards(dcopy);
                al_set(&mut self.player_discarded_cards, player_id, Some(d.0));
                proof {
                    lemma_discard_decl_wf(
                        gs@,
                        *self,
                        player_id,
                        ih as int,
                        al_get(final(self).player_discarded_cards@, player_id)->Some_0,
                    );
                }
                Ok(())
            },
        }
    }

    /// Passes the turn marker on; declarations arrive in any order.
    pub fn act(&mut self)
        requires
            old(self).wf(),
        ensures
            final(self).wf(),
            final(self).game_table == old(self).game_table,
            final(self).player_hands@ == old(self).player_hands@,
            final(self).player_bets@ == old(self).player_bets@,
            final(self).player_discarded_cards@ == old(self).player_discarded_cards@,
            final(self).card_deck == old(self).card_deck,
            final(self).phase_player_queue@.to_multiset() == old(self).phase_player_queue@.to_multiset(),
            old(self).phase_player_queue@.len() > 0 ==> final(self).phase_player_queue@ == old(self).phase_player_queue@.drop_first().push(old(self).phase_player_queue@[0]),
    {
        let _ = shift_queue(&mut self.phase_player_queue);
    }

    /// Complete when every live player has declared.
    pub fn is_phase_completed(&self) -> (r: bool)
        ensures
            r == self.complete(),
    {
        self.player_discarded_cards.len() == self.player_hands.len()
    }

    /// Some players still owe a declaration.
    pub fn discard_stage_ongoing(&self) -> (r: bool)
        ensures
            r == (self.player_discarded_cards@.len() < self.player_hands@.len()),
    {
        self.player_discarded_cards.len() < self.player_hands.len()
    }

    /// Players may declare in any order; nobody is "the" active player.
    pub fn get_active_player_id(&self) -> (r: Option<u128>)
        ensures
            r is None,
    {
        None
    }

    /// Wait for declarations with a deadline; the front player is timed
    /// out into keeping all cards.
    pub fn get_action_progression(&self) -> (p: ActionProgression)
        requires
            self.phase_player_queue@.len() > 0,
        ensures
            p == ActionProgression::Event(15000u64, self.phase_player_queue@[0]),
    {
        ActionProgression::event(15000, self.phase_player_queue[0])
    }

}

/// Recording a declaration keeps the phase well formed: the declared cards
/// move from the player's live cards to the discard pile.
#[verifier::rlimit(100)]
proof fn lemma_discard_decl_wf(
    s0: PokerPhaseDrawingDiscarding,
    s1: PokerPhaseDrawingDiscarding,
    player_id: u128,
    ih: int,
    decl: Option<Vec<Card>>,
)
    requires
        s0.wf(),
        !al_contains(s0.player_discarded_cards@, player_id),
        0 <= ih < s0.player_hands@.len(),
        s0.player_hands@[ih].0 == player_id,
        s1.game_table == s0.game_table,
        s1.player_hands@ == s0.player_hands@,
        s1.player_bets@ == s0.player_bets@,
        s1.phase_player_queue@ == s0.phase_player_queue@,
        s1.card_deck.deck_view() == s0.card_deck.deck_view(),
        keys_unique(s1.player_discarded_cards@),
        al_get(s1.player_discarded_cards@, player_id) == Some(decl),
        forall|q: u128|
            q != player_id ==> al_get(s1.player_discarded_cards@, q) == al_get(
                s0.player_discarded_cards@,
                q,
            ),
        forall|q: u128|
            al_contains(s1.player_discarded_cards@, q) <==> (al_contains(
                s0.player_discarded_cards@,
                q,
            ) || q == player_id),
        match decl {
            None => s1.card_deck.discards() == s0.card_deck.discards(),
            Some(d) => {
                &&& s1.card_deck.discards() == s0.card_deck.discards() + d@
                &&& d@.no_duplicates()
                &&& forall|j: int|
                    0 <= j < d@.len() ==> s0.player_hands@[ih].1.cards@.contains(#[trigger] d@[j])
            },
        },
    ensures
        s1.wf(),
{
    broadcast use vstd::multiset::group_multiset_axioms;

    let hands = s0.player_hands@;
    let d0 = s0.player_discarded_cards@;
    let d1 = s1.player_discarded_cards@;
    let hand = hands[ih].1;
    // declarations are still valid entries
    assert(decls_ok(s1.player_hands@, d1)) by {
        assert forall|i: int|
            0 <= i < d1.len() implies decl_entry_ok(s1.player_hands@, #[trigger] d1[i]) by {
            let q = d1[i].0;
            lemma_al_get_at(d1, q, i);
            if q == player_id {
                lemma_al_get_at(hands, player_id, ih);
            } else {
                lemma_al_get_some(d0, q);
                crate::kv::lemma_al_get_index(d0, q);
                let j = choose|j: int|
                    0 <= j < d0.len() && (#[trigger] d0[j]).0 == q && d0[j].1 == al_get(
                        d0,
                        q,
                    )->Some_0;
                assert(decl_entry_ok(hands, d0[j]));
            }
        }
    }
    // closure: the declared cards moved from the live hand to the pile
    assert(al_get(d0, player_id) == None::<Option<Vec<Card>>>) by {
        lemma_al_get_some(d0, player_id);
    }
    lemma_live_eff_set_decl(hands, d0, d1, ih);
    lemma_al_get_at(hands, player_id, ih);
    match decl {
        None => {
            assert(eff_of(hand, al_get(d0, player_id)) == hand.cards@.to_multiset());
            assert(eff_of(hand, al_get(d1, player_id)) == hand.cards@.to_multiset());
            let hm = hand.cards@.to_multiset();
            let l0 = live_eff(hands, d0);
            let l1 = live_eff(hands, d1);
            assert forall|c: Card| #[trigger] l1.count(c) == l0.count(c) by {
                assert(l1.add(hm).count(c) == l0.add(hm).count(c));
            }
            assert(live_eff(hands, d1) =~= live_eff(hands, d0));
        },
        Some(d) => {
            assert(hand.wf());
            lemma_hand_no_dupes(hand.cards@);
            lemma_kept_partition(hand.cards@, d@);
            assert(eff_of(hand, al_get(d0, player_id)) == hand.cards@.to_multiset());
            assert(eff_of(hand, al_get(d1, player_id)) == kept_cards(hand.cards@, d@).to_multiset());
            vstd::seq_lib::lemma_multiset_commutative(s0.card_deck.discards(), d@);
            // both sides of the closure gained exactly the declared cards
            let km = kept_cards(hand.cards@, d@).to_multiset();
            let hm = hand.cards@.to_multiset();
            let dm = d@.to_multiset();
            let l0 = live_eff(hands, d0);
            let l1 = live_eff(hands, d1);
            assert forall|c: Card| #[trigger] dm.count(c) + l1.count(c) == l0.count(c) by {
                assert(l1.add(hm).count(c) == l0.add(km).count(c));
                assert(km.add(dm).count(c) == hm.count(c));
            }
            assert(s1.card_deck.deck_view().to_multiset().add(
                s1.card_deck.discards().to_multiset(),
            ).add(live_eff(s1.player_hands@, d1)) =~= s0.card_deck.deck_view().to_multiset().add(
                s0.card_deck.discards().to_multiset(),
            ).add(live_eff(hands, d0)));
        },
    }
}

/// Walks the five slots of a hand: a slot keeps its card unless declared,
/// in which case the next card comes off the top of the deck. Returns the
/// new slots; the deck loses exactly the drawn cards.
#[verifier::rlimit(100)]
#[verifier::spinoff_prover]
#[verifier::loop_isolation(false)]
fn draw_replacements(
    deck: &mut crate::deck::CardDeck,
    old_cards: &[Card; 5],
    d: &Vec<Card>,
    gl: Ghost<Multiset<Card>>,
) -> (new_cards: Vec<Card>)
    requires
        old(deck).discards().len() == 0,
        old(deck).deck_view().len() >= 22,
        old_cards@.no_duplicates(),
        d@.no_duplicates(),
        forall|j: int| 0 <= j < d@.len() ==> old_cards@.contains(#[trigger] d@[j]),
        forall|c: Card| old(deck).deck_view().to_multiset().count(c) + gl@.count(c) <= 1,
        forall|c: Card|
            #[trigger] kept_cards(old_cards@, d@).to_multiset().count(c) <= gl@.count(c),
    ensures
        new_cards@ == replenished_upto(old_cards@, d@, old(deck).deck_view(), 5),
        new_cards@.len() == 5,
        !crate::hand_rank::has_dupes(new_cards@),
        final(deck).deck_view() == old(deck).deck_view().take(
            old(deck).deck_view().len() - drawn_before(old_cards@, d@, 5),
        ),
        final(deck).discards() == old(deck).discards(),
        final(deck).deck_view().to_multiset().add(new_cards@.to_multiset()) == old(
            deck,
        ).deck_view().to_multiset().add(kept_cards(old_cards@, d@).to_multiset()),
{
    broadcast use vstd::multiset::group_multiset_axioms;
    broadcast use vstd::seq_lib::group_to_multiset_ensures;

    let gdeck0 = Ghost(deck.deck_view());
    let mut new_cards: Vec<Card> = Vec::new();
    let ghost mut drawn: Seq<Card> = Seq::empty();
    proof {
        assert(new_cards@ =~= replenished_upto(old_cards@, d@, gdeck0@, 0));
        assert(gdeck0@.take(gdeck0@.len() - 0) =~= gdeck0@);
    }
    let mut k: usize = 0;
    while k < 5
        invariant
            0 <= k <= 5,
            new_cards@.len() == k,
            drawn.len() <= k,
            new_cards@ == replenished_upto(old_cards@, d@, gdeck0@, k as int),
            drawn.len() == drawn_before(old_cards@, d@, k as int),
            deck.deck_view() == gdeck0@.take(gdeck0@.len() - drawn.len()),
            deck.discards() == old(deck).discards(),
            gdeck0@ == old(deck).deck_view(),
            gdeck0@.len() >= 22,
            deck.deck_view().len() + drawn.len() == gdeck0@.len(),
            deck.deck_view().to_multiset().add(drawn.to_multiset()) == gdeck0@.to_multiset(),
            old_cards@.no_duplicates(),
            d@.no_duplicates(),
            forall|j: int| 0 <= j < d@.len() ==> old_cards@.contains(#[trigger] d@[j]),
            forall|c: Card| gdeck0@.to_multiset().count(c) + gl@.count(c) <= 1,
            forall|c: Card|
                #[trigger] kept_cards(old_cards@, d@).to_multiset().count(c) <= gl@.count(c),
            new_cards@.to_multiset() == kept_cards(old_cards@.take(k as int), d@).to_multiset()
                .add(drawn.to_multiset()),
            forall|c: Card| #[trigger] new_cards@.to_multiset().count(c) <= 1,
            forall|c: Card|
                #[trigger] new_cards@.to_multiset().count(c) == 1 ==> deck.deck_view(
                ).to_multiset().count(c) == 0,
        decreases 5 - k,
    {
        let c = old_cards[k];
        proof {
            assert(old_cards@.take(k + 1).drop_last() =~= old_cards@.take(k as int));
            assert(old_cards@.take(k + 1).last() == old_cards@[k as int]);
            assert(old_cards@.take(k as int).no_duplicates()) by {
                assert forall|a: int, b: int|
                    0 <= a < old_cards@.take(k as int).len() && 0 <= b < old_cards@.take(
                        k as int,
                    ).len() && a != b implies old_cards@.take(k as int)[a] != old_cards@.take(
                    k as int,
                )[b] by {
                    assert(old_cards@.take(k as int)[a] == old_cards@[a]);
                    assert(old_cards@.take(k as int)[b] == old_cards@[b]);
                }
            }
        }
        if contains_card(d, c) {
            // the slot is replaced from the top of the deck
            let gdp = Ghost(deck.deck_view());
            let nc = match deck.draw() {
                Some(x) => x,
                None => {
                    proof {
                        assert(false);
                    }
                    c
                },
            };
            proof {
                assert(gdp@[gdp@.len() - 1] == nc);
                assert(gdp@.contains(nc));
                assert(gdp@.to_multiset().count(nc) > 0);
                assert(new_cards@.to_multiset().count(nc) == 0) by {
                    if new_cards@.to_multiset().count(nc) == 1 {
                        assert(gdp@.to_multiset().count(nc) == 0);
                    }
                }
                // the drawn card leaves the deck for good
                assert(gdp@ =~= deck.deck_view().push(nc));
                assert(deck.deck_view().push(nc).to_multiset() =~= deck.deck_view(
                ).to_multiset().insert(nc));
                assert(gdp@.to_multiset().count(nc) <= 1) by {
                    assert(gdp@.to_multiset().count(nc) + drawn.to_multiset().count(nc)
                        == gdeck0@.to_multiset().count(nc));
                    assert(gdeck0@.to_multiset().count(nc) + gl@.count(nc) <= 1);
                }
            }
            let gnew0 = Ghost(new_cards@);
            let gdrawn0 = Ghost(drawn);
            new_cards.push(nc);
            proof {
                drawn = gdrawn0@.push(nc);
                assert(new_cards@ =~= gnew0@.push(nc));
                assert(kept_cards(old_cards@.take(k + 1), d@) =~= kept_cards(
                    old_cards@.take(k as int),
                    d@,
                ));
                assert(gnew0@.push(nc).to_multiset() =~= gnew0@.to_multiset().insert(nc));
                assert(gdrawn0@.push(nc).to_multiset() =~= gdrawn0@.to_multiset().insert(nc));
                assert(new_cards@.to_multiset() =~= gnew0@.to_multiset().insert(nc));
                assert(drawn.to_multiset() =~= gdrawn0@.to_multiset().insert(nc));
                // the drawn card is the deck's top at this slot
                assert(nc == gdeck0@[gdeck0@.len() - 1 - drawn_before(
                    old_cards@,
                    d@,
                    k as int,
                )]) by {
                    assert(gdp@[gdp@.len() - 1] == gdeck0@.take(
                        gdeck0@.len() - gdrawn0@.len(),
                    )[gdeck0@.len() - gdrawn0@.len() - 1]);
                }
                assert(deck.deck_view() =~= gdeck0@.take(gdeck0@.len() - drawn.len())) by {
                    assert(gdp@.drop_last() =~= gdeck0@.take(
                        gdeck0@.len() - gdrawn0@.len(),
                    ).drop_last());
                }
            }
        } else {
            proof {
                // a kept card is live, so the deck never held it
                lemma_kept_counts(old_cards@, d@, c);
                assert(kept_cards(old_cards@, d@).to_multiset().count(c) == 1);
                assert(gl@.count(c) >= 1);
                assert(gdeck0@.to_multiset().count(c) == 0);
                assert(deck.deck_view().to_multiset().count(c) + drawn.to_multiset().count(c)
                    == 0);
                lemma_kept_counts(old_cards@.take(k as int), d@, c);
                assert(!old_cards@.take(k as int).contains(c)) by {
                    if old_cards@.take(k as int).contains(c) {
                        let j = choose|j: int| 0 <= j < k && old_cards@.take(k as int)[j] == c;
                        assert(old_cards@[j] == old_cards@[k as int]);
                    }
                }
                assert(new_cards@.to_multiset().count(c) == 0);
            }
            let gnew0 = Ghost(new_cards@);
            new_cards.push(c);
            proof {
                assert(new_cards@ =~= gnew0@.push(c));
                assert(kept_cards(old_cards@.take(k + 1), d@) =~= kept_cards(
                    old_cards@.take(k as int),
                    d@,
                ).push(c));
                assert(gnew0@.push(c).to_multiset() =~= gnew0@.to_multiset().insert(c));
                assert(kept_cards(old_cards@.take(k as int), d@).push(c).to_multiset()
                    =~= kept_cards(old_cards@.take(k as int), d@).to_multiset().insert(c));
                assert(new_cards@.to_multiset() =~= gnew0@.to_multiset().insert(c));
                assert(kept_cards(old_cards@.take(k + 1), d@).to_multiset() =~= kept_cards(
                    old_cards@.take(k as int),
                    d@,
                ).to_multiset().insert(c));
            }
        }
        k = k + 1;
    }
    proof {
        assert(old_cards@.take(5) =~= old_cards@);
        assert forall|i: int, j: int|
            0 <= i < new_cards@.len() && 0 <= j < new_cards@.len() && i
                != j implies new_cards@[i] != new_cards@[j] by {
            new_cards@.lemma_multiset_has_no_duplicates_conv();
        }
        assert(!crate::hand_rank::has_dupes(new_cards@));
        // both sides of the exchange: deck plus new slots equal old deck
        // plus kept slots, as multisets
        assert forall|c: Card|
            #[trigger] deck.deck_view().to_multiset().add(new_cards@.to_multiset()).count(c)
                == gdeck0@.to_multiset().add(
                kept_cards(old_cards@, d@).to_multiset(),
            ).count(c) by {
            assert(deck.deck_view().to_multiset().count(c) + drawn.to_multiset().count(c)
                == gdeck0@.to_multiset().count(c));
            assert(new_cards@.to_multiset().count(c) == kept_cards(
                old_cards@,
                d@,
            ).to_multiset().count(c) + drawn.to_multiset().count(c));
        }
        assert(deck.deck_view().to_multiset().add(new_cards@.to_multiset())
            =~= gdeck0@.to_multiset().add(kept_cards(old_cards@, d@).to_multiset()));
    }
    new_cards
}

impl PokerPhaseDrawingDealing {
    /// Consumes the completed discarding stage; the discard pile is folded
    /// back into the deck and reshuffled, exactly once.
    pub fn from_drawing_discarding(discard_phase: PokerPhaseDrawingDiscarding) -> (p:
        PokerPhaseDrawingDealing)
        requires
            discard_phase.wf(),
        ensures
            p.wf(),
            p.game_table == discard_phase.game_table,
            p.player_hands@ == discard_phase.player_hands@,
            p.player_bets@ == discard_phase.player_bets@,
            p.player_discarded_cards@ == discard_phase.player_discarded_cards@,
            // the single reshuffle: the deck absorbs the discard pile here
            // and nowhere else
            p.card_deck.deck_view().to_multiset() == discard_phase.card_deck.deck_view().to_multiset().add(discard_phase.card_deck.discards().to_multiset()),
            p.card_deck.discards().len() == 0,
    {
        broadcast use vstd::multiset::group_multiset_axioms;

        let mut d = discard_phase;
        let gdeck = Ghost(d.card_deck);
        d.card_deck.handle_discard_end();
        let phase_player_queue = d.game_table.clone_player_queue();
        let p = PokerPhaseDrawingDealing {
            game_table: d.game_table,
            card_deck: d.card_deck,
            phase_player_queue,
            player_bets: d.player_bets,
            player_hands: d.player_hands,
            player_discarded_cards: d.player_discarded_cards,
        };
        proof {
            broadcast use vstd::seq_lib::group_to_multiset_ensures;

            assert(p.card_deck.discards() =~= Seq::<Card>::empty());
            assert forall|c: Card|
                #[trigger] p.card_deck.discards().to_multiset().count(c) == 0 by {
                if p.card_deck.discards().to_multiset().count(c) > 0 {
                    assert(p.card_deck.discards().contains(c));
                }
            }
            assert(p.card_deck.discards().to_multiset() =~= Multiset::<Card>::empty());
            assert(p.card_deck.deck_view().to_multiset().add(
                p.card_deck.discards().to_multiset(),
            ).add(live_eff(p.player_hands@, p.player_discarded_cards@))
                =~= gdeck@.deck_view().to_multiset().add(gdeck@.discards().to_multiset()).add(
                live_eff(p.player_hands@, p.player_discarded_cards@),
            ));
        }
        p
    }

    /// Replenishes the front player's declared discards from the top of
    /// the deck, slot by slot, and passes the turn on.
    #[verifier::rlimit(100)]
    #[verifier::spinoff_prover]
    #[verifier::loop_isolation(false)]
    pub fn act(&mut self)
        requires
            old(self).wf(),
        ensures
            final(self).wf(),
            final(self).game_table == old(self).game_table,
            final(self).player_bets@ == old(self).player_bets@,
            final(self).phase_player_queue@.to_multiset() == old(self).phase_player_queue@.to_multiset(),
            old(self).phase_player_queue@.len() > 0 ==> !al_contains(
                final(self).player_discarded_cards@,
                old(self).phase_player_queue@[0],
            ),
            old(self).phase_player_queue@.len() > 0 && al_contains(
                old(self).player_discarded_cards@,
                old(self).phase_player_queue@[0],
            ) ==> final(self).player_discarded_cards@.len() == old(self).player_discarded_cards@.len() - 1,
            old(self).phase_player_queue@.len() > 0 && !al_contains(
                old(self).player_discarded_cards@,
                old(self).phase_player_queue@[0],
            ) ==> final(self).player_discarded_cards@ == old(self).player_discarded_cards@,
            final(self).card_deck.discards() == old(self).card_deck.discards(),
            old(self).phase_player_queue@.len() > 0 ==> final(self).phase_player_queue@ == old(self).phase_player_queue@.drop_first().push(old(self).phase_player_queue@[0]),
            old(self).phase_player_queue@.len() > 0 && !al_contains(
                old(self).player_discarded_cards@,
                old(self).phase_player_queue@[0],
            ) ==> final(self).player_hands@ == old(self).player_hands@ && final(self).card_deck == old(self).card_deck,
            // a "keep all" declaration resolves without touching cards
            old(self).phase_player_queue@.len() > 0 && al_get(
                old(self).player_discarded_cards@,
                old(self).phase_player_queue@[0],
            ) == Some(None::<Vec<Card>>) ==> final(self).player_hands@ == old(self).player_hands@ && final(self).card_deck == old(self).card_deck,
            // a replacement: kept cards stay in their slots, each declared
            // slot takes the next card off the top of the deck
            old(self).phase_player_queue@.len() > 0 ==> ((al_get(
                old(self).player_discarded_cards@,
                old(self).phase_player_queue@[0],
            ) matches Some(Some(_))) ==> ({
                let dv = (al_get(
                    old(self).player_discarded_cards@,
                    old(self).phase_player_queue@[0],
                )->Some_0->Some_0)@;
                let hand0 = al_get(
                    old(self).player_hands@,
                    old(self).phase_player_queue@[0],
                )->Some_0;
                let d0 = old(self).card_deck.deck_view();
                &&& (al_get(final(self).player_hands@, old(self).phase_player_queue@[0])
                    matches Some(h) && h.wf() && h.cards@ == replenished_upto(
                    hand0.cards@,
                    dv,
                    d0,
                    5,
                ))
                &&& final(self).card_deck.deck_view() == d0.take(
                    d0.len() - drawn_before(hand0.cards@, dv, 5),
                )
                &&& (forall|q: u128|
                    q != old(self).phase_player_queue@[0] ==> al_get(
                        final(self).player_hands@,
                        q,
                    ) == al_get(old(self).player_hands@, q))
            })),
    {
        broadcast use vstd::multiset::group_multiset_axioms;
        broadcast use vstd::seq_lib::group_to_multiset_ensures;

        if self.phase_player_queue.len() == 0 {
            let _ = shift_queue(&mut self.phase_player_queue);
            return ;
        }
        let player_id = self.phase_player_queue[0];
        let id = match al_find(&self.player_discarded_cards, player_id) {
            Some(i) => i,
            None => {
                proof {
                    lemma_al_get_some(self.player_discarded_cards@, player_id);
                }
                let _ = shift_queue(&mut self.phase_player_queue);
                return ;
            },
        };
        proof {
            lemma_al_get_at(self.player_discarded_cards@, player_id, id as int);
            assert(decl_entry_ok(
                self.player_hands@,
                self.player_discarded_cards@[id as int],
            ));
        }
        let d: Vec<Card> = match &self.player_discarded_cards[id].1 {
            None => {
                let gs = Ghost(*self);
                al_remove(&mut self.player_discarded_cards, player_id);
                proof {
                    lemma_live_eff_set_decl_keep(
                        gs@,
                        *self,
                        player_id,
                    );
                }
                let _ = shift_queue(&mut self.phase_player_queue);
                return ;
            },
            Some(v) => copy_cards(v),
        };
        let ih = match al_find(&self.player_hands, player_id) {
            Some(i) => i,
            None => {
                proof {
                    lemma_al_get_some(self.player_hands@, player_id);
                    assert(false);
                }
                return ;
            },
        };
        proof {
            lemma_al_get_at(self.player_hands@, player_id, ih as int);
        }
        let old_cards: [Card; 5] = self.player_hands[ih].1.cards;
        let gs0 = Ghost(*self);
        let gl = Ghost(live_eff(self.player_hands@, self.player_discarded_cards@));
        proof {
            // the deck holds plenty: at most thirty cards are live
            lemma_live_eff_len_le(self.player_hands@, self.player_discarded_cards@);
            assert(self.card_deck.deck_view().to_multiset().len() + gl@.len() == full_deck_ms().len());
            crate::deck::lemma_full_deck_distinct();
            assert(full_deck_ms().len() == 52);
            assert(self.player_hands@.len() <= 6);
            assert(self.card_deck.deck_view().len() >= 22);
            crate::deck::full_deck().lemma_multiset_has_no_duplicates();
            // the player's live cards are among all live cards
            lemma_live_eff_remove(self.player_hands@, self.player_discarded_cards@, ih as int);
            lemma_hand_no_dupes(old_cards@);
        }
        let gdeck0 = Ghost(self.card_deck.deck_view());
        proof {
            assert(full_deck_ms().count(Card { rank: crate::card::CardRank::Two, suit: crate::card::CardSuit::Clubs }) >= 0);
            assert(self.card_deck.discards() =~= Seq::<Card>::empty());
            assert forall|c: Card|
                #[trigger] self.card_deck.discards().to_multiset().count(c) == 0 by {
                if self.card_deck.discards().to_multiset().count(c) > 0 {
                    assert(self.card_deck.discards().contains(c));
                }
            }
            assert forall|c: Card| #[trigger] gdeck0@.to_multiset().count(c) + gl@.count(c)
                <= 1 by {
                assert(full_deck_ms().count(c) <= 1);
                assert(gdeck0@.to_multiset().add(
                    self.card_deck.discards().to_multiset(),
                ).add(gl@).count(c) == full_deck_ms().count(c));
            }
            assert forall|c: Card|
                #[trigger] kept_cards(old_cards@, d@).to_multiset().count(c) <= gl@.count(c) by {
                lemma_kept_counts(old_cards@, d@, c);
                let others = live_eff(
                    self.player_hands@.remove(ih as int),
                    self.player_discarded_cards@,
                );
                assert(others.add(
                    eff_of(
                        self.player_hands@[ih as int].1,
                        al_get(self.player_discarded_cards@, player_id),
                    ),
                ).count(c) == gl@.count(c));
                assert(eff_of(
                    self.player_hands@[ih as int].1,
                    al_get(self.player_discarded_cards@, player_id),
                ) == kept_cards(old_cards@, d@).to_multiset());
            }
        }
        let new_cards = draw_replacements(&mut self.card_deck, &old_cards, &d, Ghost(gl@));
        let cards_arr: [Card; 5] = [new_cards[0], new_cards[1], new_cards[2], new_cards[3], new_cards[4]];
        proof {
            assert(cards_arr@ =~= new_cards@);
        }
        let new_hand = match Hand::from_cards(cards_arr) {
            Ok(h) => h,
            Err(_) => {
                proof {
                    assert(false);
                }
                return ;
            },
        };
        let gpre = Ghost(*self);
        self.player_hands.set(ih, (player_id, new_hand));
        al_remove(&mut self.player_discarded_cards, player_id);
        let _ = shift_queue(&mut self.phase_player_queue);
        proof {
            lemma_replenish_wf(
                gs0@,
                *self,
                player_id,
                ih as int,
                d@,
                new_hand,
            );
            assert(new_hand.cards@ == replenished_upto(old_cards@, d@, gdeck0@, 5));
        }
    }

    /// Complete when no declaration awaits replacement.
    pub fn is_phase_completed(&self) -> (r: bool)
        ensures
            r == self.complete(),
    {
        self.player_discarded_cards.len() == 0
    }

    pub fn get_active_player_id(&self) -> (r: Option<u128>)
        ensures
            self.phase_player_queue@.len() == 0 ==> r is None,
            self.phase_player_queue@.len() > 0 ==> r == Some(self.phase_player_queue@[0]),
    {
        if self.phase_player_queue.len() == 0 {
            None
        } else {
            Some(self.phase_player_queue[0])
        }
    }

    /// Replacement cards are dealt on a fixed half-second pace.
    pub fn get_action_progression(&self) -> (p: ActionProgression)
        ensures
            p == ActionProgression::Delay(500u64),
    {
        ActionProgression::delay(500)
    }
}

/// Dropping a "keep all" declaration changes nothing of the live cards.
proof fn lemma_live_eff_set_decl_keep(
    s0: PokerPhaseDrawingDealing,
    s1: PokerPhaseDrawingDealing,
    player_id: u128,
)
    requires
        s0.wf(),
        al_get(s0.player_discarded_cards@, player_id) == Some(None::<Vec<Card>>),
        s1.game_table == s0.game_table,
        s1.player_hands@ == s0.player_hands@,
        s1.player_bets@ == s0.player_bets@,
        s1.phase_player_queue@ == s0.phase_player_queue@,
        s1.card_deck == s0.card_deck,
        keys_unique(s1.player_discarded_cards@),
        al_get(s1.player_discarded_cards@, player_id) == None::<Option<Vec<Card>>>,
        forall|q: u128|
            q != player_id ==> al_get(s1.player_discarded_cards@, q) == al_get(
                s0.player_discarded_cards@,
                q,
            ),
        forall|q: u128|
            al_contains(s1.player_discarded_cards@, q) <==> (al_contains(
                s0.player_discarded_cards@,
                q,
            ) && q != player_id),
    ensures
        s1.wf(),
{
    broadcast use vstd::multiset::group_multiset_axioms;

    let hands = s0.player_hands@;
    let d0 = s0.player_discarded_cards@;
    let d1 = s1.player_discarded_cards@;
    assert(al_contains(d0, player_id)) by {
        crate::kv::lemma_al_get_some(d0, player_id);
    }
    assert(al_contains(hands, player_id)) by {
        crate::kv::lemma_al_get_index(d0, player_id);
        let j = choose|j: int|
            0 <= j < d0.len() && (#[trigger] d0[j]).0 == player_id && d0[j].1 == al_get(
                d0,
                player_id,
            )->Some_0;
        assert(decl_entry_ok(hands, d0[j]));
    }
    crate::kv::lemma_al_get_some(hands, player_id);
    crate::kv::lemma_al_get_index(hands, player_id);
    let ih = choose|ih: int|
        0 <= ih < hands.len() && (#[trigger] hands[ih]).0 == player_id && hands[ih].1 == al_get(
            hands,
            player_id,
        )->Some_0;
    lemma_live_eff_set_decl(hands, d0, d1, ih);
    let hand = hands[ih].1;
    assert(eff_of(hand, al_get(d0, player_id)) == hand.cards@.to_multiset());
    assert(eff_of(hand, al_get(d1, player_id)) == hand.cards@.to_multiset());
    let hm = hand.cards@.to_multiset();
    let l0 = live_eff(hands, d0);
    let l1 = live_eff(hands, d1);
    assert forall|c: Card| #[trigger] l1.count(c) == l0.count(c) by {
        assert(l1.add(hm).count(c) == l0.add(hm).count(c));
    }
    assert(live_eff(hands, d1) =~= live_eff(hands, d0));
    assert(decls_ok(s1.player_hands@, d1)) by {
        assert forall|i: int|
            0 <= i < d1.len() implies decl_entry_ok(s1.player_hands@, #[trigger] d1[i]) by {
            let q = d1[i].0;
            lemma_al_get_at(d1, q, i);
            crate::kv::lemma_al_get_index(d0, q);
            let j = choose|j: int|
                0 <= j < d0.len() && (#[trigger] d0[j]).0 == q && d0[j].1 == al_get(
                    d0,
                    q,
                )->Some_0;
            assert(decl_entry_ok(hands, d0[j]));
        }
    }
}

/// After replenishing one hand the phase is well formed again: the new hand
/// holds the kept cards and the drawn cards, which left the deck.
#[verifier::rlimit(100)]
proof fn lemma_replenish_wf(
    s0: PokerPhaseDrawingDealing,
    s1: PokerPhaseDrawingDealing,
    player_id: u128,
    ih: int,
    d: Seq<Card>,
    new_hand: Hand,
)
    requires
        s0.wf(),
        s0.phase_player_queue@.len() > 0,
        0 <= ih < s0.player_hands@.len(),
        s0.player_hands@[ih].0 == player_id,
        (match al_get(s0.player_discarded_cards@, player_id) {
            Some(Some(v)) => v@ == d,
            _ => false,
        }),
        new_hand.wf(),
        s1.card_deck.deck_view().to_multiset().add(new_hand.cards@.to_multiset())
            == s0.card_deck.deck_view().to_multiset().add(
            kept_cards(s0.player_hands@[ih].1.cards@, d).to_multiset(),
        ),
        s1.card_deck.discards() == s0.card_deck.discards(),
        s1.game_table == s0.game_table,
        s1.player_bets@ == s0.player_bets@,
        s1.player_hands@ == s0.player_hands@.update(ih, (player_id, new_hand)),
        keys_unique(s1.player_discarded_cards@),
        al_get(s1.player_discarded_cards@, player_id) == None::<Option<Vec<Card>>>,
        forall|q: u128|
            q != player_id ==> al_get(s1.player_discarded_cards@, q) == al_get(
                s0.player_discarded_cards@,
                q,
            ),
        forall|q: u128|
            al_contains(s1.player_discarded_cards@, q) <==> (al_contains(
                s0.player_discarded_cards@,
                q,
            ) && q != player_id),
        s1.phase_player_queue@.to_multiset() == s0.phase_player_queue@.to_multiset(),
    ensures
        s1.wf(),
        al_get(s1.player_hands@, player_id) == Some(new_hand),
        forall|q: u128|
            q != player_id ==> al_get(s1.player_hands@, q) == al_get(s0.player_hands@, q),
{
    broadcast use vstd::multiset::group_multiset_axioms;

    let hands0 = s0.player_hands@;
    let hands1 = s1.player_hands@;
    let d0 = s0.player_discarded_cards@;
    let d1 = s1.player_discarded_cards@;
    let hand_old = hands0[ih].1;
    crate::kv::lemma_al_get_update(hands0, ih, player_id, new_hand, player_id);
    assert(hands1 =~= hands0.update(ih, (player_id, new_hand)));
    // the hands map keeps its keys
    assert(keys_unique(hands1)) by {
        assert forall|a: int, b: int|
            0 <= a < b < hands1.len() implies (#[trigger] hands1[a]).0 != (
        #[trigger] hands1[b]).0 by {
            assert(hands1[a].0 == hands0[a].0);
            assert(hands1[b].0 == hands0[b].0);
        }
    }
    assert forall|q: u128|
        #[trigger] al_contains(hands1, q) <==> al_contains(hands0, q) by {
        if al_contains(hands1, q) {
            let j = choose|j: int| 0 <= j < hands1.len() && (#[trigger] hands1[j]).0 == q;
            assert(hands0[j].0 == q);
        }
        if al_contains(hands0, q) {
            let j = choose|j: int| 0 <= j < hands0.len() && (#[trigger] hands0[j]).0 == q;
            assert(hands1[j].0 == q);
        }
    }
    assert(hands_ok(hands1, s1.game_table.player_ids@)) by {
        assert forall|p: u128| #[trigger]
            al_contains(hands1, p) implies s1.game_table.player_ids@.contains(p) by {
            let j = choose|j: int| 0 <= j < hands1.len() && (#[trigger] hands1[j]).0 == p;
            assert(hands0[j].0 == p);
            assert(al_contains(hands0, p));
        }
    }
    // lookups in the new hands map
    assert forall|q: u128|
        q != player_id implies #[trigger] al_get(hands1, q) == al_get(hands0, q) by {
        crate::kv::lemma_al_get_update(hands0, ih, player_id, new_hand, q);
        assert(hands1 =~= hands0.update(ih, (player_id, new_hand)));
    }
    // remaining declarations stay valid: their hands are untouched
    assert(decls_ok(hands1, d1)) by {
        assert forall|i: int|
            0 <= i < d1.len() implies decl_entry_ok(hands1, #[trigger] d1[i]) by {
            let q = d1[i].0;
            lemma_al_get_at(d1, q, i);
            crate::kv::lemma_al_get_some(d1, q);
            assert(al_contains(d1, q));
            assert(q != player_id);
            crate::kv::lemma_al_get_index(d0, q);
            let j = choose|j: int|
                0 <= j < d0.len() && (#[trigger] d0[j]).0 == q && d0[j].1 == al_get(
                    d0,
                    q,
                )->Some_0;
            assert(decl_entry_ok(hands0, d0[j]));
            assert(al_contains(hands1, q)) by {
                assert(al_contains(hands0, q));
                let l = choose|l: int|
                    0 <= l < hands0.len() && (#[trigger] hands0[l]).0 == q;
                assert(hands1[l].0 == q);
            }
        }
    }
    // the closure: swap the declaration out, then the hand
    lemma_live_eff_set_decl(hands0, d0, d1, ih);
    lemma_live_eff_update(hands0, d1, ih, (player_id, new_hand));
    let km = kept_cards(hand_old.cards@, d).to_multiset();
    let hm = hand_old.cards@.to_multiset();
    let nm = new_hand.cards@.to_multiset();
    let l0 = live_eff(hands0, d0);
    let l0p = live_eff(hands0, d1);
    let l1 = live_eff(hands1, d1);
    assert(eff_of(hand_old, al_get(d0, player_id)) == km);
    assert(eff_of(hand_old, al_get(d1, player_id)) == hm);
    assert(eff_of(new_hand, al_get(d1, player_id)) == nm);
    // set_decl: l0p + km == l0 + hm ; update: l1 + hm == l0p + nm ;
    // the deck traded the drawn cards for the kept ones
    assert(s1.card_deck.deck_view().to_multiset().add(s1.card_deck.discards().to_multiset()).add(
        l1,
    ) =~= full_deck_ms()) by {
        assert forall|c: Card|
            #[trigger] s1.card_deck.deck_view().to_multiset().count(c)
                + s1.card_deck.discards().to_multiset().count(c) + l1.count(c) == full_deck_ms(
            ).count(c) by {
            assert(l0p.add(km).count(c) == l0.add(hm).count(c));
            assert(l1.add(hm).count(c) == l0p.add(nm).count(c));
            assert(s1.card_deck.deck_view().to_multiset().count(c) + nm.count(c)
                == s0.card_deck.deck_view().to_multiset().count(c) + km.count(c)) by {
                assert(s1.card_deck.deck_view().to_multiset().add(nm).count(c)
                    == s0.card_deck.deck_view().to_multiset().add(km).count(c));
            }
            assert(s0.card_deck.deck_view().to_multiset().count(c)
                + s0.card_deck.discards().to_multiset().count(c) + l0.count(c) == full_deck_ms(
            ).count(c)) by {
                assert(s0.card_deck.deck_view().to_multiset().add(
                    s0.card_deck.discards().to_multiset(),
                ).add(l0).count(c) == full_deck_ms().count(c));
            }
        }
    }
}

/// The multiset of the full deck.
pub open spec fn full_deck_ms() -> Multiset<Card> {
    crate::deck::full_deck().to_multiset()
}

fn al_contains_exec<V>(m: &Vec<(u128, V)>, k: u128) -> (r: bool)
    ensures
        r == al_contains(m@, k),
{
    match al_find(m, k) {
        Some(_) => true,
        None => false,
    }
}

fn hand_contains(h: &Hand, c: Card) -> (r: bool)
    ensures
        r == h.cards@.contains(c),
{
    let r = h.cards[0] == c || h.cards[1] == c || h.cards[2] == c || h.cards[3] == c || h.cards[4]
        == c;
    proof {
        if r {
        } else {
            if h.cards@.contains(c) {
                let j = choose|j: int| 0 <= j < 5 && h.cards@[j] == c;
            }
        }
    }
    r
}

fn contains_card(v: &Vec<Card>, c: Card) -> (r: bool)
    ensures
        r == v@.contains(c),
{
    let mut i: usize = 0;
    while i < v.len()
        invariant
            0 <= i <= v@.len(),
            forall|j: int| 0 <= j < i ==> v@[j] != c,
        decreases v@.len() - i,
    {
        if v[i] == c {
            return true;
        }
        i = i + 1;
    }
    false
}

fn copy_cards(v: &Vec<Card>) -> (out: Vec<Card>)
    ensures
        out@ == v@,
{
    let mut out: Vec<Card> = Vec::new();
    let mut i: usize = 0;
    while i < v.len()
        invariant
            0 <= i <= v@.len(),
            out@ == v@.take(i as int),
        decreases v@.len() - i,
    {
        out.push(v[i]);
        proof {
            assert(v@.take(i + 1) =~= v@.take(i as int).push(v@[i as int]));
        }
        i = i + 1;
    }
    proof {
        assert(v@.take(v@.len() as int) =~= v@);
    }
    out
}

} // verus!
