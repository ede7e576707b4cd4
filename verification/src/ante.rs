//! The automatic opening phases: antes are posted and hands are dealt, one
//! player per step, with a fixed pacing delay between steps.
use vstd::multiset::Multiset;
use vstd::prelude::*;

use crate::card::Card;
use crate::deck::full_deck;
use crate::hand::Hand;
use crate::kv::{al_contains, al_get, al_set, keys_unique, lemma_al_get_some};
use crate::phase::{
    PokerPhaseAnte, PokerPhaseDealing, ActionProgression, cards_conserved, no_decls, live_eff,
    shift_queue, lemma_live_eff_push, hands_ok,
};

verus! {

/// With no pending declarations every hand contributes its five cards.
pub proof fn lemma_live_eff_full_len(hands: Seq<(u128, Hand)>)
    ensures
        live_eff(hands, no_decls()).len() == 5 * hands.len(),
    decreases hands.len(),
{
    broadcast use vstd::seq_lib::group_to_multiset_ensures;
    broadcast use vstd::multiset::group_multiset_axioms;

    if hands.len() > 0 {
        lemma_live_eff_full_len(hands.drop_last());
        assert(al_get(no_decls(), hands.last().0) == None::<Option<Vec<Card>>>);
        assert(hands.last().1.cards@.len() == 5);
        assert(hands.last().1.cards@.to_multiset().len() == 5);
    }
}

/// Inside a conserved deal, no card appears twice in the draw pile.
pub proof fn lemma_deck_no_dupes(
    deck: crate::deck::CardDeck,
    hands: Seq<(u128, Hand)>,
    decls: Seq<(u128, Option<Vec<Card>>)>,
)
    requires
        cards_conserved(deck, hands, decls),
    ensures
        deck.deck_view().no_duplicates(),
{
    broadcast use vstd::multiset::group_multiset_axioms;

    crate::deck::lemma_full_deck_distinct();
    full_deck().lemma_multiset_has_no_duplicates();
    assert forall|c: Card| #[trigger]
        deck.deck_view().to_multiset().count(c) <= 1 by {
        assert(full_deck().to_multiset().count(c) <= 1);
        assert(deck.deck_view().to_multiset().count(c) + deck.discards().to_multiset().count(c)
            + live_eff(hands, decls).count(c) == full_deck().to_multiset().count(c));
    }
    deck.deck_view().lemma_multiset_has_no_duplicates_conv();
}

impl PokerPhaseAnte {
    /// Opens the match: seats the table, shuffles a fresh deck.
    pub fn new(game_table: crate::table::GameTable, ante_amount: u64) -> (p: PokerPhaseAnte)
        requires
            game_table.wf(),
            game_table.pots_wf(),
            game_table.players_wf(),
            game_table.main_total() == 0,
            game_table.credit_pots@[0].1.player_credits@.len() == 0,
            forall|i: int|
                0 <= i < game_table.player_queue_immut@.len() ==> game_table.remaining_of(
                    #[trigger] game_table.player_queue_immut@[i],
                ) >= ante_amount,
        ensures
            p.wf(),
            p.paid_count() == 0,
            p.ante_amount == ante_amount,
            p.game_table == game_table,
    {
        let phase_player_queue = game_table.clone_player_queue();
        let card_deck = crate::deck::CardDeck::new_shuffled();
        let p = PokerPhaseAnte { game_table, card_deck, phase_player_queue, ante_amount };
        proof {
            assert(p.phase_player_queue@.to_multiset()
                == p.game_table.player_ids@.to_multiset());
        }
        p
    }

    /// The number of seated players; the queue always holds all of them.
    pub fn queue_len(&self) -> (n: usize)
        ensures
            n == self.phase_player_queue@.len(),
    {
        self.phase_player_queue.len()
    }

    /// Posts the front player's ante into the main pot and passes the turn
    /// on.
    pub fn act(&mut self)
        requires
            old(self).wf(),
            !old(self).complete(),
        ensures
            final(self).wf(),
            final(self).ante_amount == old(self).ante_amount,
            final(self).paid_count() == old(self).paid_count() + 1,
            final(self).phase_player_queue@ == old(self).phase_player_queue@.drop_first().push(
                old(self).phase_player_queue@[0],
            ),
            final(self).game_table.main_total() == old(self).game_table.main_total() + old(self).ante_amount,
            final(self).game_table.remaining_of(old(self).phase_player_queue@[0]) == old(self).game_table.remaining_of(old(self).phase_player_queue@[0]) - old(self).ante_amount,
            final(self).card_deck == old(self).card_deck,
            forall|q: u128|
                q != old(self).phase_player_queue@[0] ==> al_get(
                    final(self).game_table.player_credits@,
                    q,
                ) == al_get(old(self).game_table.player_credits@, q),
            forall|p: u128|
                final(self).game_table.starting_of(p) == old(self).game_table.starting_of(p),
            final(self).game_table.player_ids@ == old(self).game_table.player_ids@,
            final(self).game_table.player_queue_immut@ == old(self).game_table.player_queue_immut@,
            final(self).game_table.match_id == old(self).game_table.match_id,
            final(self).game_table.dealer_id == old(self).game_table.dealer_id,
            forall|q: u128|
                al_contains(final(self).main_contribs(), q) <==> (al_contains(
                    old(self).main_contribs(),
                    q,
                ) || q == old(self).phase_player_queue@[0]),
    {
        proof {
            crate::phase::lemma_queue_shape(
                self.phase_player_queue@,
                self.game_table.player_ids@,
            );
            assert(self.game_table.player_ids@.len() >= 1);
        }
        let player_id = self.phase_player_queue[0];
        proof {
            broadcast use vstd::seq_lib::group_to_multiset_ensures;

            let n = self.phase_player_queue@.len() as int;
            assert(n - self.paid_count() >= 1);
            assert(!al_contains(self.main_contribs(), self.phase_player_queue@[0]));
            assert(self.game_table.remaining_of(player_id) >= self.ante_amount);
            // the front player is seated, so the table knows them
            assert(self.phase_player_queue@.contains(player_id));
            assert(self.phase_player_queue@.to_multiset().count(player_id) > 0);
            assert(self.game_table.player_ids@.to_multiset().count(player_id) > 0);
            assert(self.game_table.player_ids@.contains(player_id));
            assert(al_contains(self.game_table.player_credits@, player_id));
        }
        let gs = Ghost(*self);
        let r = self.game_table.pay_into_main(player_id, self.ante_amount);
        proof {
            assert(r is Ok);
        }
        let _ = shift_queue(&mut self.phase_player_queue);
        proof {
            let n = gs@.phase_player_queue@.len() as int;
            let paid0 = gs@.paid_count();
            assert(final(self).paid_count() == paid0 + 1);
            let q0 = gs@.phase_player_queue@;
            let q1 = final(self).phase_player_queue@;
            assert(q1 =~= q0.drop_first().push(q0[0]));
            assert forall|i: int|
                0 <= i < n - (paid0 + 1) implies !al_contains(
                final(self).main_contribs(),
                #[trigger] q1[i],
            ) by {
                assert(q1[i] == q0[i + 1]);
                assert(!al_contains(gs@.main_contribs(), q0[i + 1]));
                assert(q0[i + 1] != player_id) by {
                    crate::phase::lemma_queue_shape(q0, gs@.game_table.player_ids@);
                }
            }
            assert forall|i: int|
                n - (paid0 + 1) <= i < n implies al_contains(
                final(self).main_contribs(),
                #[trigger] q1[i],
            ) by {
                if i == n - 1 {
                    assert(q1[i] == q0[0]);
                } else {
                    assert(q1[i] == q0[i + 1]);
                    assert(al_contains(gs@.main_contribs(), q0[i + 1]));
                }
            }
            assert forall|i: int|
                0 <= i < n - (paid0 + 1) implies final(self).game_table.remaining_of(
                #[trigger] q1[i],
            ) >= final(self).ante_amount by {
                assert(q1[i] == q0[i + 1]);
                assert(q0[i + 1] != player_id);
                assert(al_get(final(self).game_table.player_credits@, q0[i + 1]) == al_get(
                    gs@.game_table.player_credits@,
                    q0[i + 1],
                ));
            }
            assert forall|p: u128|
                #[trigger] al_contains(final(self).main_contribs(), p) implies final(self).game_table.player_ids@.contains(p) by {}
        }
    }

    /// Complete when every player has posted.
    pub fn is_phase_completed(&self) -> (r: bool)
        requires
            self.wf(),
        ensures
            r == self.complete(),
    {
        self.game_table.credit_pots[0].1.player_credits.len() == self.phase_player_queue.len()
    }

    pub fn get_active_player_id(&self) -> (r: Option<u128>)
        ensures
            self.phase_player_queue@.len() == 0 ==> r is None,
            self.phase_player_queue@.len() > 0 ==> r == Some(self.phase_player_queue@[0]),
    {
        if self.phase_player_queue.len() == 0 {
            None
        } else {
            Some(self.phase_player_queue[0])
        }
    }

    /// Antes are posted on a fixed half-second pace.
    pub fn get_action_progression(&self) -> (p: ActionProgression)
        ensures
            p == ActionProgression::Delay(500u64),
    {
        ActionProgression::delay(500)
    }
}

impl PokerPhaseDealing {
    /// Consumes the completed ante phase; nobody holds cards yet.
    pub fn from_ante(ante_phase: PokerPhaseAnte) -> (p: PokerPhaseDealing)
        requires
            ante_phase.wf(),
        ensures
            p.wf(),
            p.player_hands@.len() == 0,
            p.game_table == ante_phase.game_table,
            p.ante_amount == ante_phase.ante_amount,
            p.card_deck == ante_phase.card_deck,
    {
        broadcast use vstd::multiset::group_multiset_axioms;

        let phase_player_queue = ante_phase.game_table.clone_player_queue();
        let p = PokerPhaseDealing {
            game_table: ante_phase.game_table,
            card_deck: ante_phase.card_deck,
            phase_player_queue,
            ante_amount: ante_phase.ante_amount,
            player_hands: Vec::new(),
        };
        proof {
            broadcast use vstd::seq_lib::group_to_multiset_ensures;

            crate::phase::lemma_queue_shape(
                p.phase_player_queue@,
                p.game_table.player_ids@,
            );
            assert(live_eff(p.player_hands@, no_decls()) =~= Multiset::<Card>::empty());
            assert(p.card_deck.discards().to_multiset() =~= Multiset::<Card>::empty());
            assert(p.card_deck.deck_view().to_multiset().add(
                p.card_deck.discards().to_multiset(),
            ).add(live_eff(p.player_hands@, no_decls()))
                =~= p.card_deck.deck_view().to_multiset());
            assert(p.phase_player_queue@.len() == p.game_table.player_ids@.len());
        }
        p
    }

    /// Deals five cards off the top to the front player and passes the
    /// turn on.
    #[verifier::rlimit(60)]
    pub fn act(&mut self)
        requires
            old(self).wf(),
            !old(self).complete(),
        ensures
            final(self).wf(),
            final(self).ante_amount == old(self).ante_amount,
            final(self).game_table == old(self).game_table,
            final(self).player_hands@.len() == old(self).player_hands@.len() + 1,
            al_contains(final(self).player_hands@, old(self).phase_player_queue@[0]),
            forall|q: u128|
                q != old(self).phase_player_queue@[0] ==> al_get(final(self).player_hands@, q)
                    == al_get(old(self).player_hands@, q),
            final(self).phase_player_queue@ == old(self).phase_player_queue@.drop_first().push(
                old(self).phase_player_queue@[0],
            ),
            // the new hand holds exactly the five cards off the top of the
            // deck, in draw order; the deck keeps the rest
            ({
                let d0 = old(self).card_deck.deck_view();
                let l = d0.len() as int;
                &&& (al_get(final(self).player_hands@, old(self).phase_player_queue@[0])
                    matches Some(h) && h.wf() && h.cards@ == seq![
                    d0[l - 1],
                    d0[l - 2],
                    d0[l - 3],
                    d0[l - 4],
                    d0[l - 5],
                ])
                &&& final(self).card_deck.deck_view() == d0.take(l - 5)
                &&& final(self).card_deck.discards() == old(self).card_deck.discards()
            }),
    {
        broadcast use vstd::seq_lib::group_to_multiset_ensures;
        broadcast use vstd::multiset::group_multiset_axioms;

        proof {
            crate::phase::lemma_queue_shape(
                self.phase_player_queue@,
                self.game_table.player_ids@,
            );
            assert(self.game_table.player_ids@.len() >= 1);
            lemma_live_eff_full_len(self.player_hands@);
            assert(self.card_deck.deck_view().to_multiset().len()
                + self.card_deck.discards().to_multiset().len() + live_eff(
                self.player_hands@,
                no_decls(),
            ).len() == full_deck().to_multiset().len());
            crate::deck::lemma_full_deck_distinct();
            assert(full_deck().to_multiset().len() == 52);
            assert(self.player_hands@.len() < self.phase_player_queue@.len());
            assert(self.game_table.player_ids@.len() <= 6);
            assert(self.card_deck.deck_view().len() >= 5);
            lemma_deck_no_dupes(self.card_deck, self.player_hands@, no_decls());
        }
        let player_id = self.phase_player_queue[0];
        proof {
            let n = self.phase_player_queue@.len() as int;
            assert(n - self.player_hands@.len() >= 1);
            assert(!al_contains(self.player_hands@, self.phase_player_queue@[0]));
        }
        let gdeck0 = Ghost(self.card_deck.deck_view());
        let c0 = self.draw_must();
        let c1 = self.draw_must();
        let c2 = self.draw_must();
        let c3 = self.draw_must();
        let c4 = self.draw_must();
        let cards: [Card; 5] = [c0, c1, c2, c3, c4];
        proof {
            // five pops off a duplicate-free pile give five distinct cards
            let d = gdeck0@;
            assert(d.no_duplicates());
            assert(c0 == d[d.len() - 1]);
            assert(c1 == d[d.len() - 2]);
            assert(c2 == d[d.len() - 3]);
            assert(c3 == d[d.len() - 4]);
            assert(c4 == d[d.len() - 5]);
            assert(!crate::hand_rank::has_dupes(cards@));
        }
        let hand = match Hand::from_cards(cards) {
            Ok(h) => h,
            Err(_) => {
                proof {
                    assert(false);
                }
                return ;
            },
        };
        let ghands0 = Ghost(self.player_hands@);
        al_set(&mut self.player_hands, player_id, hand);
        let _ = shift_queue(&mut self.phase_player_queue);
        proof {
            lemma_dealing_act_wf(*old(self), *self, player_id, gdeck0@, hand);
            assert(final(self).card_deck.deck_view() =~= gdeck0@.take(gdeck0@.len() - 5));
            assert(hand.cards@ =~= seq![c0, c1, c2, c3, c4]);
        }
    }

    /// Draws a card known to exist.
    fn draw_must(&mut self) -> (c: Card)
        requires
            old(self).card_deck.deck_view().len() > 0,
        ensures
            c == old(self).card_deck.deck_view().last(),
            final(self).card_deck.deck_view() == old(self).card_deck.deck_view().drop_last(),
            final(self).card_deck.discards() == old(self).card_deck.discards(),
            *final(self) == (PokerPhaseDealing { card_deck: final(self).card_deck, ..*old(self) }),
    {
        match self.card_deck.draw() {
            Some(c) => c,
            None => {
                proof {
                    assert(false);
                }
                Card { rank: crate::card::CardRank::Two, suit: crate::card::CardSuit::Clubs }
            },
        }
    }

    /// Complete when every player holds a hand.
    pub fn is_phase_completed(&self) -> (r: bool)
        ensures
            r == self.complete(),
    {
        self.player_hands.len() == self.phase_player_queue.len()
    }

    pub fn get_active_player_id(&self) -> (r: Option<u128>)
        ensures
            self.phase_player_queue@.len() == 0 ==> r is None,
            self.phase_player_queue@.len() > 0 ==> r == Some(self.phase_player_queue@[0]),
    {
        if self.phase_player_queue.len() == 0 {
            None
        } else {
            Some(self.phase_player_queue[0])
        }
    }

    /// Cards are dealt on a fixed half-second pace.
    pub fn get_action_progression(&self) -> (p: ActionProgression)
        ensures
            p == ActionProgression::Delay(500u64),
    {
        ActionProgression::delay(500)
    }
}

/// After a deal the dealing state is well formed again: the five drawn
/// cards moved from the deck into the new hand.
#[verifier::rlimit(100)]
proof fn lemma_dealing_act_wf(
    s0: PokerPhaseDealing,
    s1: PokerPhaseDealing,
    player_id: u128,
    deck0: Seq<Card>,
    hand: Hand,
)
    requires
        s0.wf(),
        !s0.complete(),
        s0.phase_player_queue@.len() > 0,
        player_id == s0.phase_player_queue@[0],
        !al_contains(s0.player_hands@, player_id),
        deck0 == s0.card_deck.deck_view(),
        deck0.len() >= 5,
        hand.wf(),
        hand.cards@ =~= seq![
            deck0[deck0.len() - 1],
            deck0[deck0.len() - 2],
            deck0[deck0.len() - 3],
            deck0[deck0.len() - 4],
            deck0[deck0.len() - 5],
        ],
        s1.game_table == s0.game_table,
        s1.ante_amount == s0.ante_amount,
        s1.card_deck.deck_view() == deck0.drop_last().drop_last().drop_last().drop_last()
            .drop_last(),
        s1.card_deck.discards() == s0.card_deck.discards(),
        s1.player_hands@ == s0.player_hands@.push((player_id, hand)),
        s1.phase_player_queue@ == s0.phase_player_queue@.drop_first().push(
            s0.phase_player_queue@[0],
        ),
    ensures
        s1.wf(),
{
    broadcast use vstd::seq_lib::group_to_multiset_ensures;
    broadcast use vstd::multiset::group_multiset_axioms;

    crate::phase::lemma_rotate_multiset(s0.phase_player_queue@);
    crate::phase::lemma_queue_shape(s0.phase_player_queue@, s0.game_table.player_ids@);
    // the new hands map is still a well-formed map into the table
    assert(keys_unique(s1.player_hands@)) by {
        assert forall|a: int, b: int|
            0 <= a < b < s1.player_hands@.len() implies (#[trigger] s1.player_hands@[a]).0 != (
        #[trigger] s1.player_hands@[b]).0 by {
            if b < s1.player_hands@.len() - 1 {
                assert(s1.player_hands@[a] == s0.player_hands@[a]);
                assert(s1.player_hands@[b] == s0.player_hands@[b]);
            } else {
                assert(s1.player_hands@[b].0 == player_id);
                assert(s1.player_hands@[a] == s0.player_hands@[a]);
                if s0.player_hands@[a].0 == player_id {
                    assert(al_contains(s0.player_hands@, player_id));
                }
            }
        }
    }
    assert(hands_ok(s1.player_hands@, s1.game_table.player_ids@)) by {
        assert forall|p: u128| #[trigger]
            al_contains(s1.player_hands@, p) implies s1.game_table.player_ids@.contains(p) by {
            let j = choose|j: int|
                0 <= j < s1.player_hands@.len() && (#[trigger] s1.player_hands@[j]).0 == p;
            if j < s1.player_hands@.len() - 1 {
                assert(al_contains(s0.player_hands@, p));
            } else {
                assert(p == player_id);
                assert(s0.phase_player_queue@.to_multiset().count(player_id) > 0);
                assert(s0.game_table.player_ids@.to_multiset().count(player_id) > 0);
            }
        }
        assert(forall|i: int|
            0 <= i < s1.player_hands@.len() ==> (#[trigger] s1.player_hands@[i]).1.wf());
        assert(s1.player_hands@.len() <= s0.phase_player_queue@.len());
        assert(s1.player_hands@.len() <= 6);
    }
    // closure: the drawn cards moved from the deck into the new hand
    assert(cards_conserved(s1.card_deck, s1.player_hands@, no_decls())) by {
        let d5 = s1.card_deck.deck_view();
        let c0 = deck0[deck0.len() - 1];
        let c1 = deck0[deck0.len() - 2];
        let c2 = deck0[deck0.len() - 3];
        let c3 = deck0[deck0.len() - 4];
        let c4 = deck0[deck0.len() - 5];
        let d1 = deck0.drop_last();
        let d2 = d1.drop_last();
        let d3 = d2.drop_last();
        let d4 = d3.drop_last();
        assert(deck0.to_multiset() =~= d1.to_multiset().insert(c0)) by {
            assert(deck0 =~= d1.push(c0));
        }
        assert(d1.to_multiset() =~= d2.to_multiset().insert(c1)) by {
            assert(d1 =~= d2.push(c1));
        }
        assert(d2.to_multiset() =~= d3.to_multiset().insert(c2)) by {
            assert(d2 =~= d3.push(c2));
        }
        assert(d3.to_multiset() =~= d4.to_multiset().insert(c3)) by {
            assert(d3 =~= d4.push(c3));
        }
        assert(d4.to_multiset() =~= d5.to_multiset().insert(c4)) by {
            assert(d4 =~= d5.push(c4));
        }
        lemma_live_eff_push(s0.player_hands@, no_decls(), (player_id, hand));
        assert(hand.cards@.to_multiset() =~= Multiset::<Card>::empty().insert(c0).insert(
            c1,
        ).insert(c2).insert(c3).insert(c4)) by {
            assert(hand.cards@ =~= seq![c0, c1, c2, c3, c4]);
            assert(seq![c0, c1, c2, c3, c4].to_multiset() =~= Multiset::<Card>::empty().insert(
                c0,
            ).insert(c1).insert(c2).insert(c3).insert(c4)) by {
                assert(seq![c0, c1, c2, c3, c4] =~= Seq::<Card>::empty().push(c0).push(c1).push(
                    c2,
                ).push(c3).push(c4));
                assert(Seq::<Card>::empty().to_multiset() =~= Multiset::<Card>::empty());
            }
        }
        assert(s1.card_deck.deck_view().to_multiset().add(
            s1.card_deck.discards().to_multiset(),
        ).add(live_eff(s1.player_hands@, no_decls())) =~= s0.card_deck.deck_view().to_multiset()
            .add(s0.card_deck.discards().to_multiset()).add(
            live_eff(s0.player_hands@, no_decls()),
        ));
    }
    // the queue alignment shifts by one
    let n = s0.phase_player_queue@.len() as int;
    let dealt1 = s1.player_hands@.len() as int;
    let q0 = s0.phase_player_queue@;
    let q1 = s1.phase_player_queue@;
    assert forall|i: int|
        0 <= i < n - dealt1 implies !al_contains(s1.player_hands@, #[trigger] q1[i]) by {
        assert(q1[i] == q0[i + 1]);
        assert(!al_contains(s0.player_hands@, q0[i + 1]));
        assert(q0[i + 1] != player_id);
        if al_contains(s1.player_hands@, q1[i]) {
            let j = choose|j: int|
                0 <= j < s1.player_hands@.len() && (#[trigger] s1.player_hands@[j]).0 == q1[i];
            if j < s1.player_hands@.len() - 1 {
                assert(al_contains(s0.player_hands@, q1[i]));
            }
        }
    }
    assert forall|i: int|
        n - dealt1 <= i < n implies al_contains(s1.player_hands@, #[trigger] q1[i]) by {
        if i == n - 1 {
            assert(q1[i] == q0[0]);
            assert(s1.player_hands@[s1.player_hands@.len() - 1].0 == player_id);
        } else {
            assert(q1[i] == q0[i + 1]);
            assert(al_contains(s0.player_hands@, q0[i + 1]));
            let j = choose|j: int|
                0 <= j < s0.player_hands@.len() && (#[trigger] s0.player_hands@[j]).0 == q0[i + 1];
            assert(s1.player_hands@[j].0 == q0[i + 1]);
        }
    }
}

} // verus!
