//! The betting rounds: bets, calls, raises, folds, completion and the
//! timeout rule.
//!
//! A bet or raise names the target total for the round, not the increment.
//! A target equal to the current high bet is accepted and acts as a call.
use vstd::prelude::*;

use crate::card::Card;
use crate::error::AppError;
use crate::kv::{
    al_contains, al_get, al_get_u64, al_find, al_set_u64, al_remove, keys_unique,
    lemma_al_get_at, lemma_al_get_some,
};
use crate::phase::{
    PokerPhaseBetting, PokerPhaseFirstBetting, PokerPhaseSecondBetting, PokerPhaseDealing,
    PokerPhaseDrawingDealing, BettingRoundAction, ActionProgression, max_bet, bet_matches_high,
    cards_conserved, no_decls, shift_queue, lemma_live_eff_remove, hands_ok, eff_of,
};

verus! {

/// `max_bet` over a prefix, extended by one entry.
proof fn lemma_max_bet_take_step(bets: Seq<(u128, u64)>, i: int)
    requires
        0 <= i < bets.len(),
    ensures
        max_bet(bets.take(i + 1)) == if bets[i].1 as int > max_bet(bets.take(i)) {
            bets[i].1 as int
        } else {
            max_bet(bets.take(i))
        },
{
    assert(bets.take(i + 1).drop_last() =~= bets.take(i));
    assert(bets.take(i + 1).last() == bets[i]);
}

/// No bet exceeds the round's highest.
pub proof fn lemma_bet_le_max(bets: Seq<(u128, u64)>, i: int)
    requires
        0 <= i < bets.len(),
    ensures
        bets[i].1 as int <= max_bet(bets),
        max_bet(bets) >= 0,
    decreases bets.len(),
{
    if i == bets.len() - 1 {
        lemma_max_bet_nonneg(bets.drop_last());
    } else {
        assert(bets.drop_last()[i] == bets[i]);
        lemma_bet_le_max(bets.drop_last(), i);
    }
}

pub proof fn lemma_max_bet_nonneg(bets: Seq<(u128, u64)>)
    ensures
        max_bet(bets) >= 0,
    decreases bets.len(),
{
    if bets.len() > 0 {
        lemma_max_bet_nonneg(bets.drop_last());
    }
}

/// The highest bet is one of the bets.
pub proof fn lemma_max_bet_is_entry(bets: Seq<(u128, u64)>)
    requires
        bets.len() > 0,
    ensures
        exists|i: int| 0 <= i < bets.len() && (#[trigger] bets[i]).1 as int == max_bet(bets),
    decreases bets.len(),
{
    if bets.len() == 1 {
        assert(bets.drop_last() =~= Seq::<(u128, u64)>::empty());
        assert(max_bet(Seq::<(u128, u64)>::empty()) == 0);
        assert(bets[0].1 as int == max_bet(bets));
    } else {
        lemma_max_bet_nonneg(bets.drop_last());
        if bets.last().1 as int > max_bet(bets.drop_last()) {
            assert(bets[bets.len() - 1].1 as int == max_bet(bets));
        } else {
            lemma_max_bet_is_entry(bets.drop_last());
            let i = choose|i: int|
                0 <= i < bets.drop_last().len() && (#[trigger] bets.drop_last()[i]).1 as int
                    == max_bet(bets.drop_last());
            assert(bets[i].1 as int == max_bet(bets));
        }
    }
}

impl PokerPhaseBetting {
    /// The front of the queue: the player expected to act.
    pub open spec fn front(self) -> u128
        recommends
            self.phase_player_queue@.len() > 0,
    {
        self.phase_player_queue@[0]
    }

    /// The player expected to act: the front of the queue.
    pub fn get_active_player_id(&self) -> (r: Option<u128>)
        ensures
            self.phase_player_queue@.len() == 0 ==> r is None,
            self.phase_player_queue@.len() > 0 ==> r == Some(self.phase_player_queue@[0]),
    {
        if self.phase_player_queue.len() == 0 {
            None
        } else {
            Some(self.phase_player_queue[0])
        }
    }

    /// The round's highest bet, `None` before any bet.
    pub fn get_highest_bet(&self) -> (r: Option<u64>)
        ensures
            r is None <==> self.player_bets@.len() == 0,
            r matches Some(h) ==> h as int == max_bet(self.player_bets@),
    {
        if self.player_bets.len() == 0 {
            return None;
        }
        let gb = Ghost(self.player_bets@);
        let mut h: u64 = self.player_bets[0].1;
        proof {
            assert(gb@.take(1).drop_last() =~= Seq::<(u128, u64)>::empty());
            assert(gb@.take(1).last() == gb@[0]);
            assert(max_bet(Seq::<(u128, u64)>::empty()) == 0);
        }
        let mut i: usize = 1;
        while i < self.player_bets.len()
            invariant
                gb@ == self.player_bets@,
                1 <= i <= gb@.len(),
                h as int == max_bet(gb@.take(i as int)),
            decreases gb@.len() - i,
        {
            proof {
                lemma_max_bet_take_step(gb@, i as int);
            }
            if self.player_bets[i].1 > h {
                h = self.player_bets[i].1;
            }
            i = i + 1;
        }
        proof {
            assert(gb@.take(gb@.len() as int) =~= gb@);
        }
        Some(h)
    }

    /// The round's highest bet together with everyone whose bet stands at
    /// it.
    pub fn get_highest_bet_with_bettors(&self) -> (r: Option<(u64, Vec<u128>)>)
        requires
            self.wf(),
        ensures
            r is None <==> self.player_bets@.len() == 0,
            r matches Some(p) ==> p.0 as int == max_bet(self.player_bets@) && (forall|j: int|
                0 <= j < p.1@.len() ==> bet_matches_high(self.player_bets@, #[trigger] p.1@[j])),
    {
        let high = match self.get_highest_bet() {
            None => {
                return None;
            },
            Some(h) => h,
        };
        let mut bettors: Vec<u128> = Vec::new();
        let mut i: usize = 0;
        while i < self.player_bets.len()
            invariant
                self.wf(),
                0 <= i <= self.player_bets@.len(),
                high as int == max_bet(self.player_bets@),
                forall|j: int|
                    0 <= j < bettors@.len() ==> bet_matches_high(
                        self.player_bets@,
                        #[trigger] bettors@[j],
                    ),
            decreases self.player_bets@.len() - i,
        {
            if self.player_bets[i].1 == high {
                proof {
                    lemma_al_get_at(self.player_bets@, self.player_bets@[i as int].0, i as int);
                }
                bettors.push(self.player_bets[i].0);
            }
            i = i + 1;
        }
        Some((high, bettors))
    }

    /// Whether each player may act now: only the front of the queue.
    pub fn can_player_act(&self) -> (r: Vec<(u128, bool)>)
        requires
            self.phase_player_queue@.len() > 0,
        ensures
            r@.len() == self.game_table.player_ids@.len(),
            forall|i: int|
                0 <= i < r@.len() ==> (#[trigger] r@[i]).0 == self.game_table.player_ids@[i]
                    && (r@[i].1 <==> r@[i].0 == self.phase_player_queue@[0]),
    {
        let active = self.phase_player_queue[0];
        let mut r: Vec<(u128, bool)> = Vec::new();
        let mut i: usize = 0;
        while i < self.game_table.player_ids.len()
            invariant
                0 <= i <= self.game_table.player_ids@.len(),
                self.phase_player_queue@.len() > 0,
                active == self.phase_player_queue@[0],
                r@.len() == i,
                forall|j: int|
                    0 <= j < i ==> (#[trigger] r@[j]).0 == self.game_table.player_ids@[j] && (
                    r@[j].1 <==> r@[j].0 == self.phase_player_queue@[0]),
            decreases self.game_table.player_ids@.len() - i,
        {
            let p = self.game_table.player_ids[i];
            r.push((p, p == active));
            i = i + 1;
        }
        r
    }

    /// A copy of the per-player bet totals.
    pub fn get_player_bet_amounts(&self) -> (r: Vec<(u128, u64)>)
        ensures
            r@ == self.player_bets@,
    {
        let mut r: Vec<(u128, u64)> = Vec::new();
        let mut i: usize = 0;
        while i < self.player_bets.len()
            invariant
                0 <= i <= self.player_bets@.len(),
                r@ == self.player_bets@.take(i as int),
            decreases self.player_bets@.len() - i,
        {
            r.push(self.player_bets[i]);
            proof {
                assert(self.player_bets@.take(i + 1) =~= self.player_bets@.take(i as int).push(
                    self.player_bets@[i as int],
                ));
            }
            i = i + 1;
        }
        proof {
            assert(self.player_bets@.take(self.player_bets@.len() as int) =~= self.player_bets@);
        }
        r
    }

    /// One step of the round: close the first action round and pass the
    /// turn on.
    pub fn act(&mut self)
        requires
            old(self).wf(),
        ensures
            final(self).wf(),
            final(self).first_round_action == false,
            final(self).game_table == old(self).game_table,
            final(self).player_hands@ == old(self).player_hands@,
            final(self).player_bets@ == old(self).player_bets@,
            final(self).card_deck == old(self).card_deck,
            old(self).phase_player_queue@.len() > 0 ==> final(self).phase_player_queue@ == old(self).phase_player_queue@.drop_first().push(old(self).phase_player_queue@[0]),
            final(self).phase_player_queue@.to_multiset() == old(self).phase_player_queue@.to_multiset(),
    {
        self.first_round_action = false;
        let _ = shift_queue(&mut self.phase_player_queue);
    }

    /// Whether the round is over: one hand left, or a full round passed
    /// with every live player's bet at the high bet.
    pub fn is_phase_completed(&self) -> (r: bool)
        requires
            self.wf(),
        ensures
            r == self.complete(),
    {
        if self.player_hands.len() == 1 {
            return true;
        }
        let high = match self.get_highest_bet() {
            None => {
                return false;
            },
            Some(h) => h,
        };
        if self.first_round_action {
            return false;
        }
        let mut i: usize = 0;
        while i < self.player_hands.len()
            invariant
                self.wf(),
                0 <= i <= self.player_hands@.len(),
                high as int == max_bet(self.player_bets@),
                self.player_bets@.len() > 0,
                !self.first_round_action,
                self.player_hands@.len() != 1,
                forall|j: int|
                    0 <= j < i ==> bet_matches_high(
                        self.player_bets@,
                        (#[trigger] self.player_hands@[j]).0,
                    ),
            decreases self.player_hands@.len() - i,
        {
            let p = self.player_hands[i].0;
            match al_get_u64(&self.player_bets, p) {
                Some(b) => {
                    if b != high {
                        return false;
                    }
                },
                None => {
                    return false;
                },
            }
            i = i + 1;
        }
        true
    }

    /// Records a bet of `bet_credits` as the player's round total,
    /// charging the difference into the main pot. Rejected below the
    /// current high bet, above the player's starting credits, or beyond
    /// their balance.
    pub fn set_player_bet(&mut self, player_id: u128, bet_credits: u64) -> (r: Result<
        (),
        AppError,
    >)
        requires
            old(self).wf(),
            al_contains(old(self).player_hands@, player_id),
        ensures
            final(self).wf(),
            final(self).phase_player_queue@ == old(self).phase_player_queue@,
            final(self).player_hands@ == old(self).player_hands@,
            final(self).first_round_action == old(self).first_round_action,
            final(self).card_deck == old(self).card_deck,
            r is Ok <==> old(self).set_bet_ok(player_id, bet_credits),
            r is Err ==> *final(self) == *old(self),
            (old(self).player_bets@.len() > 0 && (bet_credits as int) < max_bet(
                old(self).player_bets@,
            )) ==> (r matches Err(e) && e is InvalidRequest),
            ((old(self).player_bets@.len() == 0 || bet_credits as int >= max_bet(
                old(self).player_bets@,
            )) && bet_credits as int > old(self).game_table.starting_of(player_id)) ==> (
            r matches Err(e) && e is InvalidRequest),
            r is Ok ==> al_get(final(self).player_bets@, player_id) == Some(bet_credits),
            r is Ok ==> forall|q: u128|
                q != player_id ==> al_get(final(self).player_bets@, q) == al_get(
                    old(self).player_bets@,
                    q,
                ),
            r is Ok ==> final(self).game_table.remaining_of(player_id) == old(self).game_table.remaining_of(player_id) - (bet_credits - old(self).bet_of(player_id)),
            r is Ok ==> final(self).game_table.main_total() == old(self).game_table.main_total() + (
            bet_credits - old(self).bet_of(player_id)),
            forall|p: u128| final(self).game_table.starting_of(p) == old(self).game_table.starting_of(p),
            r is Ok ==> forall|q: u128|
                q != player_id ==> al_get(
                    final(self).game_table.player_credits@,
                    q,
                ) == al_get(old(self).game_table.player_credits@, q),
    {
        // below the high bet?
        if self.player_bets.len() > 0 {
            match self.get_highest_bet() {
                Some(high) => {
                    if bet_credits < high {
                        return Err(
                            AppError::invalid_request(
                                "Bet amount can't be less than the current high bet!",
                            ),
                        );
                    }
                },
                None => {},
            }
        }
        // beyond the player's starting credits?
        proof {
            assert(self.game_table.player_ids@.contains(player_id));
            lemma_al_get_some(self.game_table.player_credits@, player_id);
        }
        let starting = match self.game_table.lookup_starting(player_id) {
            Some(s) => s,
            None => {
                proof {
                    assert(false);
                }
                return Err(AppError::internal("Unknown player!"));
            },
        };
        if bet_credits > starting {
            return Err(AppError::invalid_request("Player can't afford bet!"));
        }
        let prior = match al_get_u64(&self.player_bets, player_id) {
            Some(v) => v,
            None => 0,
        };
        proof {
            lemma_al_get_some(self.player_bets@, player_id);
            if al_contains(self.player_bets@, player_id) {
                let i = choose|i: int|
                    0 <= i < self.player_bets@.len() && (#[trigger] self.player_bets@[i]).0
                        == player_id;
                lemma_al_get_at(self.player_bets@, player_id, i);
                lemma_bet_le_max(self.player_bets@, i);
            }
        }
        let added = bet_credits - prior;
        match self.game_table.pay_into_main(player_id, added) {
            Ok(()) => {},
            Err(e) => {
                return Err(e);
            },
        }
        let gb = Ghost(self.player_bets@);
        al_set_u64(&mut self.player_bets, player_id, bet_credits);
        proof {
            assert forall|p: u128|
                #[trigger] al_contains(final(self).player_bets@, p) implies al_contains(
                final(self).player_hands@,
                p,
            ) by {}
            assert forall|i: int|
                0 <= i < final(self).player_bets@.len() implies (
            #[trigger] final(self).player_bets@[i]).1 as int <= final(self).game_table.starting_of(final(self).player_bets@[i].0) by {
                let q = final(self).player_bets@[i].0;
                lemma_al_get_at(final(self).player_bets@, q, i);
                if q != player_id {
                    lemma_al_get_some(gb@, q);
                    crate::kv::lemma_al_get_index(gb@, q);
                    let j = choose|j: int|
                        0 <= j < gb@.len() && (#[trigger] gb@[j]).0 == q && gb@[j].1 == al_get(
                            gb@,
                            q,
                        )->Some_0;
                }
            }
        }
        Ok(())
    }

    /// Folds the player's hand to the discard pile and clears their bet;
    /// out of turn the action is rejected, without a hand it is a no-op.
    #[verifier::rlimit(60)]
    pub fn player_folds(&mut self, player_id: u128) -> (r: Result<(), AppError>)
        requires
            old(self).wf(),
            old(self).phase_player_queue@.len() > 0,
        ensures
            final(self).wf(),
            fold_rel(*old(self), *final(self), player_id, r),
    {
        if player_id != self.phase_player_queue[0] {
            return Err(AppError::unauthorized("Player can't act out of turn!"));
        }
        let i = match al_find(&self.player_hands, player_id) {
            Some(i) => i,
            None => {
                proof {
                    lemma_al_get_some(self.player_hands@, player_id);
                }
                return Ok(());
            },
        };
        // move the folded hand to the discard pile
        let mut cards: Vec<Card> = Vec::new();
        cards.push(self.player_hands[i].1.cards[0]);
        cards.push(self.player_hands[i].1.cards[1]);
        cards.push(self.player_hands[i].1.cards[2]);
        cards.push(self.player_hands[i].1.cards[3]);
        cards.push(self.player_hands[i].1.cards[4]);
        proof {
            assert(cards@ =~= self.player_hands@[i as int].1.cards@);
        }
        let ghands = Ghost(self.player_hands@);
        let gdeck = Ghost(self.card_deck);
        self.card_deck.discard_cards(cards);
        self.player_hands.remove(i);
        al_remove(&mut self.player_bets, player_id);
        proof {
            lemma_al_get_at(ghands@, player_id, i as int);
            assert(final(self).player_hands@ =~= ghands@.remove(i as int));
            crate::kv::lemma_al_get_remove(ghands@, i as int, player_id);
            assert forall|q: u128|
                q != player_id implies al_get(final(self).player_hands@, q) == al_get(
                ghands@,
                q,
            ) by {
                crate::kv::lemma_al_get_remove(ghands@, i as int, q);
            }
            // closure: the folded cards moved from the hand to the pile
            lemma_live_eff_remove(ghands@, no_decls(), i as int);
            vstd::seq_lib::lemma_multiset_commutative(gdeck@.discards(), ghands@[i as int].1.cards@);
            assert(eff_of(ghands@[i as int].1, al_get(no_decls(), player_id))
                == ghands@[i as int].1.cards@.to_multiset());
            assert(final(self).card_deck.deck_view().to_multiset().add(
                final(self).card_deck.discards().to_multiset(),
            ).add(crate::phase::live_eff(final(self).player_hands@, no_decls()))
                =~= gdeck@.deck_view().to_multiset().add(gdeck@.discards().to_multiset()).add(
                crate::phase::live_eff(ghands@, no_decls()),
            ));
            assert(!al_contains(final(self).player_bets@, player_id));
            assert forall|q: u128|
                #[trigger] al_contains(final(self).player_hands@, q) implies al_contains(
                ghands@,
                q,
            ) && q != player_id by {
                crate::kv::lemma_al_get_remove(ghands@, i as int, q);
                lemma_al_get_some(final(self).player_hands@, q);
                lemma_al_get_some(ghands@, q);
            }
            assert forall|q: u128|
                al_contains(ghands@, q) && q != player_id implies #[trigger] al_contains(
                final(self).player_hands@,
                q,
            ) by {
                crate::kv::lemma_al_get_remove(ghands@, i as int, q);
                lemma_al_get_some(final(self).player_hands@, q);
                lemma_al_get_some(ghands@, q);
            }
            assert forall|p: u128|
                #[trigger] al_contains(final(self).player_bets@, p) implies al_contains(
                final(self).player_hands@,
                p,
            ) by {}
            assert forall|p: u128|
                #[trigger] al_contains(final(self).player_hands@, p) implies self.game_table.player_ids@.contains(
                p,
            ) by {}
        }
        Ok(())
    }

    /// Matches the current high bet; fails when no bet stands.
    pub fn player_calls(&mut self, player_id: u128) -> (r: Result<(), AppError>)
        requires
            old(self).wf(),
            old(self).phase_player_queue@.len() > 0,
        ensures
            final(self).wf(),
            call_rel(*old(self), *final(self), player_id, r),
            r is Ok ==> bet_matches_high(final(self).player_bets@, player_id),
    {
        if player_id != self.phase_player_queue[0] {
            return Err(AppError::unauthorized("Player can't act out of turn!"));
        }
        if !al_contains_exec(&self.player_hands, player_id) {
            return Err(AppError::invalid_request("Player has no hand in play!"));
        }
        let highest_bet = match self.get_highest_bet() {
            Some(h) => h,
            None => {
                return Err(AppError::invalid_request("No bet to call against!"));
            },
        };
        let gb0 = Ghost(self.player_bets@);
        let r = self.set_player_bet(player_id, highest_bet);
        proof {
            if r is Ok {
                // the player's bet now stands at the high bet, which the
                // call can only have left in place
                lemma_max_unchanged_on_call(gb0@, final(self).player_bets@, player_id, highest_bet);
            }
        }
        match r {
            Ok(()) => Ok(()),
            Err(e) => Err(e),
        }
    }

    /// Sets or raises the player's bet to the given round total.
    pub fn player_bets_or_raises(&mut self, player_id: u128, bet_credits: u64) -> (r: Result<
        (),
        AppError,
    >)
        requires
            old(self).wf(),
            old(self).phase_player_queue@.len() > 0,
        ensures
            final(self).wf(),
            bet_rel(*old(self), *final(self), player_id, bet_credits, r),
    {
        if player_id != self.phase_player_queue[0] {
            return Err(AppError::unauthorized("Player can't act out of turn!"));
        }
        if !al_contains_exec(&self.player_hands, player_id) {
            return Err(AppError::invalid_request("Player has no hand in play!"));
        }
        self.set_player_bet(player_id, bet_credits)
    }

    /// Routes a submitted action to its handler.
    pub fn handle_betting_action(&mut self, player_id: u128, action: BettingRoundAction) -> (r:
        Result<(), AppError>)
        requires
            old(self).wf(),
            old(self).phase_player_queue@.len() > 0,
        ensures
            final(self).wf(),
            betting_action_rel(*old(self), *final(self), player_id, action, r),
    {
        match action {
            BettingRoundAction::Bet(credits) => self.player_bets_or_raises(player_id, credits),
            BettingRoundAction::Call => self.player_calls(player_id),
            BettingRoundAction::Raise(credits) => self.player_bets_or_raises(player_id, credits),
            BettingRoundAction::Fold => self.player_folds(player_id),
        }
    }

    /// The timeout rule: a stalled player calls if their bet already
    /// stands at the high bet, and folds otherwise.
    pub fn handle_timeout(&mut self, player_id: u128) -> (r: Result<(), AppError>)
        requires
            old(self).wf(),
            old(self).phase_player_queue@.len() > 0,
        ensures
            final(self).wf(),
            timeout_rel(*old(self), *final(self), player_id, r),
    {
        let ties_high: bool = match self.get_highest_bet() {
            Some(h) => {
                match al_get_u64(&self.player_bets, player_id) {
                    Some(b) => b == h,
                    None => false,
                }
            },
            None => false,
        };
        if ties_high {
            let gs = Ghost(*self);
            let r = self.player_calls(player_id);
            proof {
                if player_id == gs@.phase_player_queue@[0] && al_contains(
                    gs@.player_hands@,
                    player_id,
                ) && bet_matches_high(gs@.player_bets@, player_id) {
                    if r is Err {
                        // calling at the high bet always succeeds: the
                        // target equals the standing bet, so nothing is owed
                        assert(gs@.set_bet_ok(player_id, (max_bet(gs@.player_bets@)) as u64))
                            by {
                            lemma_max_bet_nonneg(gs@.player_bets@);
                            lemma_remaining_covers_zero_delta(gs@, player_id);
                        }
                    }
                }
            }
            r
        } else {
            self.player_folds(player_id)
        }
    }
}

/// A bet equal to a player's standing bet asks for no further credits, and
/// the balance is never negative.
proof fn lemma_remaining_covers_zero_delta(b: PokerPhaseBetting, p: u128)
    requires
        b.wf(),
        al_contains(b.player_hands@, p),
        bet_matches_high(b.player_bets@, p),
    ensures
        b.set_bet_ok(p, (max_bet(b.player_bets@)) as u64),
{
    lemma_al_get_some(b.player_bets@, p);
    lemma_max_bet_nonneg(b.player_bets@);
    assert(b.game_table.player_ids@.contains(p));
    lemma_al_get_some(b.game_table.player_credits@, p);
    let i = choose|i: int|
        0 <= i < b.game_table.player_credits@.len() && (
        #[trigger] b.game_table.player_credits@[i]).0 == p;
    lemma_al_get_at(b.game_table.player_credits@, p, i);
    assert(b.game_table.player_credits@[i].1.wf());
    crate::kv::lemma_sum_nonneg(b.game_table.player_credits@[i].1.pot_credits@);
    // the standing bet was recorded within the starting credits
    lemma_bets_within_starting(b, p);
}

/// A player's standing bet never exceeds their starting credits: the
/// betting invariant says every recorded bet was within them.
proof fn lemma_bets_within_starting(b: PokerPhaseBetting, p: u128)
    requires
        b.wf(),
        bet_matches_high(b.player_bets@, p),
    ensures
        max_bet(b.player_bets@) <= b.game_table.starting_of(p),
{
    lemma_al_get_some(b.player_bets@, p);
    crate::kv::lemma_al_get_index(b.player_bets@, p);
    let i = choose|i: int|
        0 <= i < b.player_bets@.len() && (#[trigger] b.player_bets@[i]).0 == p
            && b.player_bets@[i].1 == al_get(b.player_bets@, p)->Some_0;
    assert(b.player_bets@[i].1 as int <= b.game_table.starting_of(p));
}

/// After setting `p`'s bet to the previous maximum, the maximum is
/// unchanged and `p` stands at it.
proof fn lemma_max_unchanged_on_call(
    bets0: Seq<(u128, u64)>,
    bets1: Seq<(u128, u64)>,
    p: u128,
    h: u64,
)
    requires
        bets0.len() > 0,
        h as int == max_bet(bets0),
        al_get(bets1, p) == Some(h),
        forall|q: u128| q != p ==> al_get(bets1, q) == al_get(bets0, q),
        keys_unique(bets0),
        keys_unique(bets1),
    ensures
        bet_matches_high(bets1, p),
{
    lemma_al_get_some(bets1, p);
    assert forall|i: int| 0 <= i < bets1.len() implies (#[trigger] bets1[i]).1 <= h by {
        let q = bets1[i].0;
        lemma_al_get_at(bets1, q, i);
        if q == p {
        } else {
            lemma_al_get_some(bets0, q);
            crate::kv::lemma_al_get_index(bets0, q);
            let j = choose|j: int|
                0 <= j < bets0.len() && (#[trigger] bets0[j]).0 == q && bets0[j].1 == al_get(
                    bets0,
                    q,
                )->Some_0;
            lemma_bet_le_max(bets0, j);
        }
    }
    crate::kv::lemma_al_get_index(bets1, p);
    let ip = choose|ip: int|
        0 <= ip < bets1.len() && (#[trigger] bets1[ip]).0 == p && bets1[ip].1 == al_get(
            bets1,
            p,
        )->Some_0;
    lemma_bet_le_max(bets1, ip);
    lemma_max_bet_is_entry(bets1);
    let im = choose|im: int|
        0 <= im < bets1.len() && (#[trigger] bets1[im]).1 as int == max_bet(bets1);
    assert(max_bet(bets1) == h as int);
}

impl PokerPhaseFirstBetting {
    /// Consumes the completed deal; the round starts with no bets on the
    /// table, so the first player must bet or fold.
    pub fn from_dealing(dealing_phase: PokerPhaseDealing) -> (p: PokerPhaseFirstBetting)
        requires
            dealing_phase.wf(),
        ensures
            p.0.wf(),
            p.0.player_bets@.len() == 0,
            p.0.first_round_action,
            p.0.game_table == dealing_phase.game_table,
            p.0.player_hands@ == dealing_phase.player_hands@,
            p.0.card_deck == dealing_phase.card_deck,
    {
        let phase_player_queue = dealing_phase.game_table.clone_player_queue();
        let p = PokerPhaseFirstBetting(
            PokerPhaseBetting {
                game_table: dealing_phase.game_table,
                card_deck: dealing_phase.card_deck,
                phase_player_queue,
                player_hands: dealing_phase.player_hands,
                player_bets: Vec::new(),
                first_round_action: true,
            },
        );
        p
    }
}

impl PokerPhaseSecondBetting {
    /// Consumes the finished replenishment; the bets of the first round
    /// carry forward, so a second-round target is the hand's running total.
    pub fn from_drawing_dealing(drawing_dealing_phase: PokerPhaseDrawingDealing) -> (p:
        PokerPhaseSecondBetting)
        requires
            drawing_dealing_phase.wf(),
            drawing_dealing_phase.complete(),
        ensures
            p.0.wf(),
            p.0.first_round_action,
            p.0.game_table == drawing_dealing_phase.game_table,
            p.0.player_hands@ == drawing_dealing_phase.player_hands@,
            p.0.player_bets@ == drawing_dealing_phase.player_bets@,
            p.0.card_deck == drawing_dealing_phase.card_deck,
    {
        proof {
            assert(drawing_dealing_phase.player_discarded_cards@ =~= no_decls());
        }
        let phase_player_queue = drawing_dealing_phase.game_table.clone_player_queue();
        let p = PokerPhaseSecondBetting(
            PokerPhaseBetting {
                game_table: drawing_dealing_phase.game_table,
                card_deck: drawing_dealing_phase.card_deck,
                phase_player_queue,
                player_hands: drawing_dealing_phase.player_hands,
                player_bets: drawing_dealing_phase.player_bets,
                first_round_action: true,
            },
        );
        p
    }
}

/// The state change of a successful bet of `target`: the player's round
/// bet becomes the target and the difference flows from their balance into
/// the main pot; nothing else moves.
pub open spec fn bet_effect(
    pre: PokerPhaseBetting,
    post: PokerPhaseBetting,
    p: u128,
    target: u64,
) -> bool {
    &&& al_get(post.player_bets@, p) == Some(target)
    &&& (forall|q: u128| q != p ==> al_get(post.player_bets@, q) == al_get(pre.player_bets@, q))
    &&& post.game_table.remaining_of(p) == pre.game_table.remaining_of(p) - (target - pre.bet_of(
        p,
    ))
    &&& post.game_table.main_total() == pre.game_table.main_total() + (target - pre.bet_of(p))
    &&& (forall|q: u128|
        q != p ==> al_get(post.game_table.player_credits@, q) == al_get(
            pre.game_table.player_credits@,
            q,
        ))
    &&& (forall|q: u128| post.game_table.starting_of(q) == pre.game_table.starting_of(q))
    &&& post.player_hands@ == pre.player_hands@
    &&& post.phase_player_queue@ == pre.phase_player_queue@
    &&& post.first_round_action == pre.first_round_action
    &&& post.card_deck == pre.card_deck
}

/// What a bet or raise of `target` does: accepted exactly under
/// `set_bet_ok` for the active player with a live hand; out of turn is
/// unauthorized; a target below the high bet or beyond the starting credits
/// is an invalid request; a rejection changes nothing.
pub open spec fn bet_rel(
    pre: PokerPhaseBetting,
    post: PokerPhaseBetting,
    p: u128,
    target: u64,
    r: Result<(), AppError>,
) -> bool {
    &&& (r is Ok <==> (p == pre.front() && al_contains(pre.player_hands@, p) && pre.set_bet_ok(
        p,
        target,
    )))
    &&& (r is Err ==> post == pre)
    &&& (p != pre.front() ==> (r matches Err(e) && e is Unauthorized))
    &&& (p == pre.front() && al_contains(pre.player_hands@, p) && pre.player_bets@.len() > 0 && (
    target as int) < max_bet(pre.player_bets@) ==> (r matches Err(e) && e is InvalidRequest))
    &&& (p == pre.front() && al_contains(pre.player_hands@, p) && (pre.player_bets@.len() == 0
        || target as int >= max_bet(pre.player_bets@)) && target as int
        > pre.game_table.starting_of(p) ==> (r matches Err(e) && e is InvalidRequest))
    &&& (r is Ok ==> bet_effect(pre, post, p, target))
}

/// What a call does: a bet at the current high bet, rejected when no bet
/// stands.
pub open spec fn call_rel(
    pre: PokerPhaseBetting,
    post: PokerPhaseBetting,
    p: u128,
    r: Result<(), AppError>,
) -> bool {
    &&& (r is Ok <==> (p == pre.front() && al_contains(pre.player_hands@, p)
        && pre.player_bets@.len() > 0 && pre.set_bet_ok(p, (max_bet(pre.player_bets@)) as u64)))
    &&& (r is Err ==> post == pre)
    &&& (p != pre.front() ==> (r matches Err(e) && e is Unauthorized))
    &&& (p == pre.front() && al_contains(pre.player_hands@, p) && pre.player_bets@.len() == 0 ==> (
    r matches Err(e) && e is InvalidRequest))
    &&& (r is Ok ==> bet_effect(pre, post, p, (max_bet(pre.player_bets@)) as u64))
}

/// The state change of a fold: the hand leaves play for the discard pile
/// and the player's bet entry disappears; credits stay where they are.
pub open spec fn fold_effect(pre: PokerPhaseBetting, post: PokerPhaseBetting, p: u128) -> bool {
    &&& !al_contains(post.player_hands@, p)
    &&& !al_contains(post.player_bets@, p)
    &&& post.player_hands@.len() == pre.player_hands@.len() - 1
    &&& (forall|q: u128|
        q != p ==> al_get(post.player_hands@, q) == al_get(pre.player_hands@, q) && al_get(
            post.player_bets@,
            q,
        ) == al_get(pre.player_bets@, q))
    &&& post.card_deck.deck_view() == pre.card_deck.deck_view()
    &&& post.card_deck.discards() == pre.card_deck.discards() + (al_get(
        pre.player_hands@,
        p,
    )->Some_0).cards@
    &&& post.game_table == pre.game_table
    &&& post.phase_player_queue@ == pre.phase_player_queue@
    &&& post.first_round_action == pre.first_round_action
}

/// What a fold does: the active player's hand is discarded; without a hand
/// it is a no-op; out of turn it is unauthorized.
pub open spec fn fold_rel(
    pre: PokerPhaseBetting,
    post: PokerPhaseBetting,
    p: u128,
    r: Result<(), AppError>,
) -> bool {
    &&& (p != pre.front() ==> (r matches Err(e) && e is Unauthorized) && post == pre)
    &&& (p == pre.front() && !al_contains(pre.player_hands@, p) ==> r is Ok && post == pre)
    &&& (p == pre.front() && al_contains(pre.player_hands@, p) ==> r is Ok && fold_effect(
        pre,
        post,
        p,
    ))
}

/// What routing a betting action does: a bet or raise sets the target
/// total, a call matches the high bet, a fold drops the hand.
pub open spec fn betting_action_rel(
    pre: PokerPhaseBetting,
    post: PokerPhaseBetting,
    p: u128,
    action: BettingRoundAction,
    r: Result<(), AppError>,
) -> bool {
    match action {
        BettingRoundAction::Bet(c) => bet_rel(pre, post, p, c, r),
        BettingRoundAction::Raise(c) => bet_rel(pre, post, p, c, r),
        BettingRoundAction::Call => call_rel(pre, post, p, r),
        BettingRoundAction::Fold => fold_rel(pre, post, p, r),
    }
}

/// The deadline rule for the active player: a forced call when their bet
/// already stands at the high bet — a no-op on the credits — and a forced
/// fold otherwise.
pub open spec fn timeout_rel(
    pre: PokerPhaseBetting,
    post: PokerPhaseBetting,
    p: u128,
    r: Result<(), AppError>,
) -> bool {
    &&& (p != pre.front() ==> (r matches Err(e) && e is Unauthorized) && post == pre)
    &&& (p == pre.front() && al_contains(pre.player_hands@, p) && bet_matches_high(
        pre.player_bets@,
        p,
    ) ==> r is Ok && bet_effect(pre, post, p, (max_bet(pre.player_bets@)) as u64))
    &&& (p == pre.front() && al_contains(pre.player_hands@, p) && !bet_matches_high(
        pre.player_bets@,
        p,
    ) ==> r is Ok && fold_effect(pre, post, p))
    &&& (p == pre.front() && !al_contains(pre.player_hands@, p) && !bet_matches_high(
        pre.player_bets@,
        p,
    ) ==> r is Ok && post == pre)
    &&& (r is Err ==> post == pre)
}

fn al_contains_exec<V>(m: &Vec<(u128, V)>, k: u128) -> (r: bool)
    ensures
        r == al_contains(m@, k),
{
    match al_find(m, k) {
        Some(_) => true,
        None => false,
    }
}

} // verus!
