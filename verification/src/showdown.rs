//! The showdown: hands are revealed, the winners determined, and each pot
//! split equally among them; the integer-division remainder stays with the
//! pot.
use vstd::arithmetic::div_mod::{lemma_fundamental_div_mod, lemma_mod_bound};
use vstd::prelude::*;

use crate::error::AppError;
use crate::hand::{Hand, determine_winners, spec_winners, cards_views, seq_has};
use crate::hand_rank::HandRank;
use crate::kv::{
    al_contains, al_get, al_find, keys_unique, sum_ints, lemma_al_get_at, lemma_al_get_some,
    lemma_sum_ints_update, lemma_sum_ints_nonneg, lemma_sum_ints_elem_le,
};
use crate::phase::{
    PokerPhaseShowdown, PokerPhaseBetting, ShowdownResults, ShowdownPotDistribution,
    cards_conserved, no_decls, hands_ok, live_eff,
};
use crate::table::{GameTable, ids_unique};

verus! {

/// The hands at the table, in seating-map order.
pub open spec fn hands_values(hs: Seq<(u128, Hand)>) -> Seq<Hand> {
    hs.map_values(|e: (u128, Hand)| e.1)
}

impl GameTable {
    /// Splits the pot at `pot_index` equally among the winners; the
    /// remainder stays with the pot. Conservation is untouched: what the
    /// pot loses, the winners' balances gain.
    #[verifier::rlimit(60)]
    pub fn distribute_pot(&mut self, pot_index: usize, winners: &Vec<u128>) -> (share: u64)
        requires
            old(self).wf(),
            pot_index < old(self).credit_pots@.len(),
            winners@.len() > 0,
            ids_unique(winners@),
            forall|j: int|
                0 <= j < winners@.len() ==> al_contains(
                    old(self).player_credits@,
                    #[trigger] winners@[j],
                ),
        ensures
            final(self).wf(),
            final(self).player_ids@ == old(self).player_ids@,
            final(self).player_queue_immut@ == old(self).player_queue_immut@,
            final(self).match_id == old(self).match_id,
            final(self).credit_pots@.len() == old(self).credit_pots@.len(),
            share as int == old(self).credit_pots@[pot_index as int].1.total_credits as int
                / winners@.len() as int,
            final(self).credit_pots@[pot_index as int].1.total_credits as int == old(self).credit_pots@[pot_index as int].1.total_credits as int % winners@.len() as int,
            forall|j: int|
                0 <= j < winners@.len() ==> final(self).remaining_of(#[trigger] winners@[j]) == old(self).remaining_of(winners@[j]) + share,
            forall|p: u128| final(self).starting_of(p) == old(self).starting_of(p),
    {
        let n = winners.len();
        let total = self.credit_pots[pot_index].1.total_credits;
        let share = total / (n as u64);
        proof {
            lemma_fundamental_div_mod(total as int, n as int);
            lemma_mod_bound(total as int, n as int);
        }
        let mut j: usize = 0;
        while j < n
            invariant
                0 <= j <= n,
                n == winners@.len(),
                pot_index < self.credit_pots@.len(),
                ids_unique(winners@),
                forall|l: int|
                    0 <= l < n ==> al_contains(self.player_credits@, #[trigger] winners@[l]),
                self.wf_distribution(
                    *old(self),
                    pot_index as int,
                    winners@,
                    share as int,
                    j as int,
                ),
            decreases n - j,
        {
            let w = winners[j];
            let gs = Ghost(*self);
            proof {
                assert((j as int + 1) * (share as int) <= (winners@.len() as int) * (
                share as int)) by (nonlinear_arith)
                    requires
                        j < winners@.len(),
                        share >= 0,
                ;
                assert((j as int + 1) * (share as int) == j as int * (share as int)
                    + share as int) by (nonlinear_arith);
                assert((winners@.len() as int) * (share as int) == (share as int) * (
                winners@.len() as int)) by (nonlinear_arith);
            }
            self.award(w, share, pot_index);
            proof {
                lemma_award_step(gs@, *self, *old(self), pot_index as int, winners@, share as int, j as int, w);
            }
            j = j + 1;
        }
        share
    }

    /// The distribution loop's running shape: `j` winners are paid so far.
    pub open spec fn wf_distribution(
        self,
        orig: GameTable,
        pot_index: int,
        winners: Seq<u128>,
        share: int,
        j: int,
    ) -> bool {
        &&& self.wf()
        &&& self.player_ids@ == orig.player_ids@
        &&& self.player_queue_immut@ == orig.player_queue_immut@
        &&& self.match_id == orig.match_id
        &&& self.credit_pots@.len() == orig.credit_pots@.len()
        &&& 0 <= share
        &&& share * winners.len() <= orig.credit_pots@[pot_index].1.total_credits
        &&& self.credit_pots@[pot_index].1.total_credits as int
            == orig.credit_pots@[pot_index].1.total_credits - j * share
        &&& forall|l: int|
            0 <= l < j ==> self.remaining_of(#[trigger] winners[l]) == orig.remaining_of(
                winners[l],
            ) + share
        &&& forall|l: int|
            j <= l < winners.len() ==> self.remaining_of(#[trigger] winners[l])
                == orig.remaining_of(winners[l])
        &&& forall|p: u128| self.starting_of(p) == orig.starting_of(p)
    }

    /// Moves `share` from the pot at `pot_index` to the player's balance.
    #[verifier::rlimit(60)]
    fn award(&mut self, player_id: u128, share: u64, pot_index: usize)
        requires
            old(self).wf(),
            pot_index < old(self).credit_pots@.len(),
            al_contains(old(self).player_credits@, player_id),
            share <= old(self).credit_pots@[pot_index as int].1.total_credits,
        ensures
            final(self).wf(),
            final(self).player_ids@ == old(self).player_ids@,
            final(self).player_queue_immut@ == old(self).player_queue_immut@,
            final(self).match_id == old(self).match_id,
            final(self).credit_pots@.len() == old(self).credit_pots@.len(),
            final(self).credit_pots@[pot_index as int].1.total_credits == old(self).credit_pots@[pot_index as int].1.total_credits - share,
            forall|j: int|
                0 <= j < old(self).credit_pots@.len() && j != pot_index ==> final(self).credit_pots@[j] == old(self).credit_pots@[j],
            final(self).remaining_of(player_id) == old(self).remaining_of(player_id) + share,
            forall|q: u128|
                q != player_id ==> al_get(final(self).player_credits@, q) == al_get(
                    old(self).player_credits@,
                    q,
                ),
            forall|p: u128| final(self).starting_of(p) == old(self).starting_of(p),
    {
        let gt0 = Ghost(*self);
        let i = match al_find(&self.player_credits, player_id) {
            Some(i) => i,
            None => {
                proof {
                    assert(false);
                }
                return ;
            },
        };
        proof {
            lemma_al_get_at(self.player_credits@, player_id, i as int);
            // the balance plus the share stays under the starting sum
            assert(forall|l: int|
                0 <= l < gt0@.remainings().len() ==> #[trigger] gt0@.remainings()[l] >= 0);
            assert(forall|l: int|
                0 <= l < gt0@.pot_totals().len() ==> #[trigger] gt0@.pot_totals()[l] >= 0);
            lemma_sum_ints_elem_le(gt0@.remainings(), i as int);
            lemma_sum_ints_elem_le(gt0@.pot_totals(), pot_index as int);
            lemma_sum_ints_nonneg(gt0@.remainings());
            lemma_sum_ints_nonneg(gt0@.pot_totals());
            assert(gt0@.remainings()[i as int]
                == gt0@.player_credits@[i as int].1.remaining_credits as int);
            assert(gt0@.pot_totals()[pot_index as int]
                == gt0@.credit_pots@[pot_index as int].1.total_credits as int);
        }
        let old_rem = self.player_credits[i].1.remaining_credits;
        self.player_credits[i].1.remaining_credits = old_rem + share;
        let old_total = self.credit_pots[pot_index].1.total_credits;
        self.credit_pots[pot_index].1.total_credits = old_total - share;
        proof {
            lemma_award_wf(gt0@, *self, i as int, pot_index as int, player_id, share);
        }
    }
}

/// Moving a share from a pot to a balance keeps the table well formed; the
/// conservation sum is unchanged.
proof fn lemma_award_wf(
    t0: GameTable,
    t1: GameTable,
    i: int,
    pot_index: int,
    player_id: u128,
    share: u64,
)
    requires
        t0.wf(),
        0 <= i < t0.player_credits@.len(),
        t0.player_credits@[i].0 == player_id,
        0 <= pot_index < t0.credit_pots@.len(),
        t1.match_id == t0.match_id,
        t1.player_ids@ == t0.player_ids@,
        t1.player_queue_immut@ == t0.player_queue_immut@,
        t1.dealer_id == t0.dealer_id,
        t1.player_credits@.len() == t0.player_credits@.len(),
        t1.credit_pots@.len() == t0.credit_pots@.len(),
        t1.player_credits@ == t0.player_credits@.update(i, t1.player_credits@[i]),
        t1.player_credits@[i].0 == player_id,
        t1.player_credits@[i].1.player_id == t0.player_credits@[i].1.player_id,
        t1.player_credits@[i].1.starting_credits == t0.player_credits@[i].1.starting_credits,
        t1.player_credits@[i].1.pot_credits == t0.player_credits@[i].1.pot_credits,
        t1.player_credits@[i].1.remaining_credits == t0.player_credits@[i].1.remaining_credits
            + share,
        t1.credit_pots@ == t0.credit_pots@.update(pot_index, t1.credit_pots@[pot_index]),
        t1.credit_pots@[pot_index].0 == t0.credit_pots@[pot_index].0,
        t1.credit_pots@[pot_index].1.pot_id == t0.credit_pots@[pot_index].1.pot_id,
        t1.credit_pots@[pot_index].1.is_main_pot == t0.credit_pots@[pot_index].1.is_main_pot,
        t1.credit_pots@[pot_index].1.player_credits == t0.credit_pots@[pot_index].1.player_credits,
        t1.credit_pots@[pot_index].1.total_credits == t0.credit_pots@[pot_index].1.total_credits
            - share,
    ensures
        t1.wf(),
        t1.remaining_of(player_id) == t0.remaining_of(player_id) + share,
        forall|q: u128|
            q != player_id ==> al_get(t1.player_credits@, q) == al_get(t0.player_credits@, q),
        forall|p: u128| t1.starting_of(p) == t0.starting_of(p),
{
    assert(t1.remainings() =~= t0.remainings().update(
        i,
        t1.player_credits@[i].1.remaining_credits as int,
    ));
    assert(t1.startings() =~= t0.startings());
    assert(t1.pot_totals() =~= t0.pot_totals().update(
        pot_index,
        t1.credit_pots@[pot_index].1.total_credits as int,
    ));
    lemma_sum_ints_update(t0.remainings(), i, t1.player_credits@[i].1.remaining_credits as int);
    lemma_sum_ints_update(
        t0.pot_totals(),
        pot_index,
        t1.credit_pots@[pot_index].1.total_credits as int,
    );
    assert(keys_unique(t1.player_credits@));
    assert(keys_unique(t1.credit_pots@));
    assert forall|p: u128| #[trigger]
        al_contains(t1.player_credits@, p) <==> al_contains(t0.player_credits@, p) by {
        if al_contains(t1.player_credits@, p) {
            let j = choose|j: int|
                0 <= j < t1.player_credits@.len() && (#[trigger] t1.player_credits@[j]).0 == p;
            assert((t0.player_credits@[j]).0 == p);
        }
        if al_contains(t0.player_credits@, p) {
            let j = choose|j: int|
                0 <= j < t0.player_credits@.len() && (#[trigger] t0.player_credits@[j]).0 == p;
            assert((t1.player_credits@[j]).0 == p);
        }
    }
    assert forall|p: u128| al_get(t1.player_credits@, p) == if p == player_id {
        Some(t1.player_credits@[i].1)
    } else {
        al_get(t0.player_credits@, p)
    } by {
        crate::kv::lemma_al_get_update(t0.player_credits@, i, player_id, t1.player_credits@[i].1, p);
        assert(t1.player_credits@ =~= t0.player_credits@.update(
            i,
            (player_id, t1.player_credits@[i].1),
        ));
    }
    lemma_al_get_at(t0.player_credits@, player_id, i);
}

/// One distribution step keeps the running shape.
proof fn lemma_award_step(
    s_pre: GameTable,
    s_post: GameTable,
    orig: GameTable,
    pot_index: int,
    winners: Seq<u128>,
    share: int,
    j: int,
    w: u128,
)
    requires
        0 <= j < winners.len(),
        w == winners[j],
        ids_unique(winners),
        s_pre.wf_distribution(orig, pot_index, winners, share, j),
        s_post.wf(),
        s_post.player_ids@ == s_pre.player_ids@,
        s_post.player_queue_immut@ == s_pre.player_queue_immut@,
        s_post.match_id == s_pre.match_id,
        s_post.credit_pots@.len() == s_pre.credit_pots@.len(),
        s_post.credit_pots@[pot_index].1.total_credits == s_pre.credit_pots@[pot_index].1.total_credits
            - share,
        share >= 0,
        s_post.remaining_of(w) == s_pre.remaining_of(w) + share,
        forall|q: u128|
            q != w ==> al_get(s_post.player_credits@, q) == al_get(s_pre.player_credits@, q),
        forall|p: u128| s_post.starting_of(p) == s_pre.starting_of(p),
    ensures
        s_post.wf_distribution(orig, pot_index, winners, share, j + 1),
{
    assert(s_post.credit_pots@[pot_index].1.total_credits as int
        == orig.credit_pots@[pot_index].1.total_credits - (j + 1) * share) by {
        assert((j + 1) * share == j * share + share) by (nonlinear_arith);
    }
    assert forall|l: int|
        0 <= l < j + 1 implies s_post.remaining_of(#[trigger] winners[l]) == orig.remaining_of(
        winners[l],
    ) + share by {
        if l < j {
            assert(winners[l] != w);
        }
    }
    assert forall|l: int|
        j + 1 <= l < winners.len() implies s_post.remaining_of(#[trigger] winners[l])
        == orig.remaining_of(winners[l]) by {
        assert(winners[l] != w);
    }
}

impl PokerPhaseShowdown {
    /// Consumes a finished betting round for the reveal.
    pub fn from_betting(betting_phase: PokerPhaseBetting) -> (p: PokerPhaseShowdown)
        requires
            betting_phase.wf(),
        ensures
            p.wf(),
            p.results is None,
            p.game_table == betting_phase.game_table,
            p.player_hands@ == betting_phase.player_hands@,
    {
        let phase_player_queue = betting_phase.game_table.clone_player_queue();
        PokerPhaseShowdown {
            game_table: betting_phase.game_table,
            card_deck: betting_phase.card_deck,
            phase_player_queue,
            player_hands: betting_phase.player_hands,
            results: None,
        }
    }

    /// Reveals the hands, determines the winners, and splits every pot
    /// equally among them; remainders stay with their pots.
    #[verifier::rlimit(100)]
    pub fn act(&mut self)
        requires
            old(self).wf(),
        ensures
            final(self).wf(),
            final(self).results is Some,
            final(self).player_hands@ == old(self).player_hands@,
            final(self).phase_player_queue@ == old(self).phase_player_queue@,
            final(self).results matches Some(res) ==> (forall|i: int|
                0 <= i < old(self).player_hands@.len() ==> (res.winner_ids@.contains(
                    (#[trigger] old(self).player_hands@[i]).0,
                ) <==> seq_has(
                    spec_winners(cards_views(hands_values(old(self).player_hands@))),
                    old(self).player_hands@[i].1.cards@,
                ))),
            // the winning rank is the category of the winning hands
            final(self).results matches Some(res) ==> (spec_winners(
                cards_views(hands_values(old(self).player_hands@)),
            ).len() > 0 ==> res.winning_rank == crate::hand_rank::spec_category(
                spec_winners(cards_views(hands_values(old(self).player_hands@)))[0],
            )),
            // without a winner nothing is paid out
            final(self).results matches Some(res) ==> (res.winner_ids@.len() == 0 ==> final(self).game_table == old(self).game_table),
            forall|p: u128|
                final(self).game_table.starting_of(p) == old(self).game_table.starting_of(p),
            // the single main pot splits equally; the remainder stays with
            // the pot
            final(self).results matches Some(res) ==> (res.winner_ids@.len() > 0 ==> ({
                let n = res.winner_ids@.len() as int;
                let total0 = old(self).game_table.main_total();
                &&& final(self).game_table.main_total() == total0 % n
                &&& (forall|j: int|
                    0 <= j < n ==> final(self).game_table.remaining_of(
                        #[trigger] res.winner_ids@[j],
                    ) == old(self).game_table.remaining_of(res.winner_ids@[j]) + total0 / n)
                &&& res.pot_distribution@.len() == 1
                &&& res.pot_distribution@[0].0 == old(self).game_table.credit_pots@[0].0
                &&& res.pot_distribution@[0].1.pot_id == old(self).game_table.credit_pots@[0].0
                &&& res.pot_distribution@[0].1.total_credits as int == total0
                &&& res.pot_distribution@[0].1.credits_per_winner as int == total0 / n
                &&& res.pot_distribution@[0].1.player_ids@ == res.winner_ids@
            })),
    {
        let mut hands_vec: Vec<Hand> = Vec::new();
        let mut i: usize = 0;
        while i < self.player_hands.len()
            invariant
                self.wf(),
                0 <= i <= self.player_hands@.len(),
                hands_vec@.len() == i,
                forall|j: int|
                    0 <= j < i ==> (#[trigger] hands_vec@[j]).cards@
                        == self.player_hands@[j].1.cards@ && hands_vec@[j].wf(),
            decreases self.player_hands@.len() - i,
        {
            hands_vec.push(self.player_hands[i].1.duplicate());
            i = i + 1;
        }
        proof {
            assert(cards_views(hands_vec@) =~= cards_views(hands_values(self.player_hands@)));
        }
        let winners = determine_winners(&hands_vec);
        let winning_rank = if winners.len() > 0 {
            winners[0].rank
        } else {
            crate::hand_rank::HandRank::HighCard
        };
        // name the winning players: those whose cards won
        let gviews = Ghost(spec_winners(cards_views(hands_values(self.player_hands@))));
        let mut winner_ids: Vec<u128> = Vec::new();
        let mut i2: usize = 0;
        while i2 < self.player_hands.len()
            invariant
                self.wf(),
                0 <= i2 <= self.player_hands@.len(),
                gviews@ == spec_winners(cards_views(hands_values(self.player_hands@))),
                cards_views(winners@) == gviews@,
                forall|j: int| 0 <= j < winners@.len() ==> (#[trigger] winners@[j]).wf(),
                forall|j: int|
                    0 <= j < i2 ==> (winner_ids@.contains(
                        (#[trigger] self.player_hands@[j]).0,
                    ) <==> seq_has(gviews@, self.player_hands@[j].1.cards@)),
                forall|l: int|
                    0 <= l < winner_ids@.len() ==> exists|j: int|
                        0 <= j < i2 && (#[trigger] winner_ids@[l])
                            == self.player_hands@[j].0,
                ids_unique(winner_ids@),
                forall|l: int|
                    0 <= l < winner_ids@.len() ==> al_contains(
                        self.game_table.player_credits@,
                        #[trigger] winner_ids@[l],
                    ),
            decreases self.player_hands@.len() - i2,
        {
            let mut found = false;
            let mut k: usize = 0;
            while k < winners.len()
                invariant
                    self.wf(),
                    i2 < self.player_hands@.len(),
                    0 <= k <= winners@.len(),
                    cards_views(winners@) == gviews@,
                    found <==> (exists|l: int|
                        0 <= l < k && (#[trigger] cards_views(winners@)[l])
                            == self.player_hands@[i2 as int].1.cards@),
                decreases winners@.len() - k,
            {
                if cards_match(&winners[k], &self.player_hands[i2].1) {
                    proof {
                        assert(cards_views(winners@)[k as int]
                            == self.player_hands@[i2 as int].1.cards@);
                    }
                    found = true;
                }
                k = k + 1;
            }
            let gprev = Ghost(winner_ids@);
            if found {
                let p = self.player_hands[i2].0;
                let galready = Ghost(winner_ids@);
                let mut dup = false;
                let mut l: usize = 0;
                while l < winner_ids.len()
                    invariant
                        0 <= l <= winner_ids@.len(),
                        dup <==> (exists|m: int|
                            0 <= m < l && #[trigger] winner_ids@[m] == p),
                        winner_ids@ == galready@,
                        p == self.player_hands@[i2 as int].0,
                        i2 < self.player_hands@.len(),
                    decreases winner_ids@.len() - l,
                {
                    if winner_ids[l] == p {
                        dup = true;
                    }
                    l = l + 1;
                }
                if !dup {
                    winner_ids.push(p);
                    proof {
                        assert(self.game_table.player_ids@.contains(p)) by {
                            assert(al_contains(self.player_hands@, p));
                        }
                        assert(al_contains(self.game_table.player_credits@, p));
                    }
                } else {
                    proof {
                        // a duplicate key cannot appear: the hands map is a map
                        let m = choose|m: int|
                            0 <= m < winner_ids@.len() && #[trigger] winner_ids@[m] == p;
                        let j = choose|j: int|
                            0 <= j < i2 && (#[trigger] winner_ids@[m])
                                == self.player_hands@[j].0;
                        assert(self.player_hands@[j].0 == self.player_hands@[i2 as int].0);
                        assert(false);
                    }
                }
            }
            proof {
                assert forall|j: int|
                    0 <= j < i2 + 1 implies (winner_ids@.contains(
                    (#[trigger] self.player_hands@[j]).0,
                ) <==> seq_has(gviews@, self.player_hands@[j].1.cards@)) by {
                    if j < i2 {
                        let q = self.player_hands@[j].0;
                        assert(q != self.player_hands@[i2 as int].0);
                        if found {
                            let p2 = self.player_hands@[i2 as int].0;
                            assert(winner_ids@ == gprev@.push(p2));
                            if gprev@.contains(q) {
                                let m = choose|m: int|
                                    0 <= m < gprev@.len() && gprev@[m] == q;
                                assert(winner_ids@[m] == q);
                                assert(winner_ids@.contains(q));
                            }
                            if winner_ids@.contains(q) {
                                let m = choose|m: int|
                                    0 <= m < winner_ids@.len() && winner_ids@[m] == q;
                                if m < gprev@.len() {
                                    assert(gprev@[m] == q);
                                    assert(gprev@.contains(q));
                                } else {
                                    assert(winner_ids@[m] == p2);
                                    assert(false);
                                }
                            }
                        } else {
                            assert(winner_ids@ == gprev@);
                        }
                    } else {
                        if found {
                            assert(winner_ids@[winner_ids@.len() - 1]
                                == self.player_hands@[i2 as int].0);
                            assert(winner_ids@.contains(self.player_hands@[i2 as int].0));
                            let l = choose|l: int|
                                0 <= l < k && (#[trigger] cards_views(winners@)[l])
                                    == self.player_hands@[i2 as int].1.cards@;
                            assert(seq_has(gviews@, self.player_hands@[i2 as int].1.cards@));
                        } else {
                            if seq_has(gviews@, self.player_hands@[i2 as int].1.cards@) {
                                let l = choose|l: int|
                                    0 <= l < gviews@.len() && gviews@[l]
                                        == self.player_hands@[i2 as int].1.cards@;
                                assert(cards_views(winners@)[l]
                                    == self.player_hands@[i2 as int].1.cards@);
                                assert(false);
                            }
                            if winner_ids@.contains(self.player_hands@[i2 as int].0) {
                                let m = choose|m: int|
                                    0 <= m < winner_ids@.len() && #[trigger] winner_ids@[m]
                                        == self.player_hands@[i2 as int].0;
                                let j2 = choose|j2: int|
                                    0 <= j2 < i2 && (#[trigger] winner_ids@[m])
                                        == self.player_hands@[j2].0;
                                assert(self.player_hands@[j2].0
                                    == self.player_hands@[i2 as int].0);
                                assert(false);
                            }
                        }
                    }
                }
            }
            i2 = i2 + 1;
        }
        proof {
            if winners@.len() > 0 {
                assert(cards_views(winners@)[0] == winners@[0].cards@);
                assert(winning_rank == crate::hand_rank::spec_category(gviews@[0]));
            }
        }
        // split the main pot — the only pot of this system — among the
        // winners
        let gt0 = Ghost(self.game_table);
        let mut pot_distribution: Vec<(u128, ShowdownPotDistribution)> = Vec::new();
        if winner_ids.len() > 0 {
            let pot_id = self.game_table.credit_pots[0].0;
            let total = self.game_table.credit_pots[0].1.total_credits;
            let share = self.game_table.distribute_pot(0, &winner_ids);
            let dist = ShowdownPotDistribution {
                pot_id,
                player_ids: copy_ids(&winner_ids),
                total_credits: total,
                credits_per_winner: share,
            };
            pot_distribution.push((pot_id, dist));
        }
        self.results = Some(
            ShowdownResults { winning_rank, winner_ids, pot_distribution },
        );
    }

    /// The showdown runs exactly one act.
    pub fn is_phase_completed(&self) -> (r: bool)
        ensures
            r == self.complete(),
    {
        match &self.results {
            Some(_) => true,
            None => false,
        }
    }
}

fn cards_match(a: &Hand, b: &Hand) -> (r: bool)
    ensures
        r == (a.cards@ == b.cards@),
{
    let r = a.cards[0] == b.cards[0] && a.cards[1] == b.cards[1] && a.cards[2] == b.cards[2]
        && a.cards[3] == b.cards[3] && a.cards[4] == b.cards[4];
    proof {
        if r {
            assert(a.cards@ =~= b.cards@);
        }
        if a.cards@ == b.cards@ {
            assert(a.cards@[0] == b.cards@[0]);
            assert(a.cards@[1] == b.cards@[1]);
            assert(a.cards@[2] == b.cards@[2]);
            assert(a.cards@[3] == b.cards@[3]);
            assert(a.cards@[4] == b.cards@[4]);
        }
    }
    r
}

fn copy_ids(v: &Vec<u128>) -> (out: Vec<u128>)
    ensures
        out@ == v@,
{
    let mut out: Vec<u128> = Vec::new();
    let mut i: usize = 0;
    while i < v.len()
        invariant
            0 <= i <= v@.len(),
            out@ == v@.take(i as int),
        decreases v@.len() - i,
    {
        out.push(v[i]);
        proof {
            assert(v@.take(i + 1) =~= v@.take(i as int).push(v@[i as int]));
        }
        i = i + 1;
    }
    proof {
        assert(v@.take(v@.len() as int) =~= v@);
    }
    out
}

} // verus!
