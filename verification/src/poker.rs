//! The phase-typed state machine of one match: a tagged state per phase and
//! the driver-facing surface that dispatches on it.
use vstd::prelude::*;

use crate::error::AppError;
use crate::kv::al_contains;
use crate::betting::{betting_action_rel, timeout_rel};
use crate::card::Card;
use crate::hand::Hand;
use crate::kv::al_get;
use crate::phase::{
    PokerPhaseAnte, PokerPhaseDealing, PokerPhaseBetting, PokerPhaseFirstBetting,
    PokerPhaseSecondBetting, PokerPhaseDrawingDiscarding, PokerPhaseDrawingDealing,
    PokerPhaseShowdown, ActionProgression, BettingRoundAction, DiscardedCards, drawn_before,
    replenished_upto, selection_in_hand,
};
use crate::table::{GameTable, MatchStartPlayers};

verus! {

/// The current phase of a match, with its per-phase state.
#[derive(Clone, Debug)]
pub enum PokerPhase {
    Ante(PokerPhaseAnte),
    Dealing(PokerPhaseDealing),
    FirstBetting(PokerPhaseFirstBetting),
    DrawingDiscarding(PokerPhaseDrawingDiscarding),
    DrawingDealing(PokerPhaseDrawingDealing),
    SecondBetting(PokerPhaseSecondBetting),
    Showdown(PokerPhaseShowdown),
}

/// The front of a queue, if it has one.
pub open spec fn front_of(q: Seq<u128>) -> Option<u128> {
    if q.len() > 0 {
        Some(q[0])
    } else {
        None
    }
}

/// One ante step: the front player's ante moves into the main pot and the
/// turn passes on; the deck is untouched.
pub open spec fn ante_act_rel(p0: PokerPhaseAnte, p1: PokerPhaseAnte) -> bool {
    &&& p1.ante_amount == p0.ante_amount
    &&& p1.paid_count() == p0.paid_count() + 1
    &&& (p0.phase_player_queue@.len() > 0 ==> ({
        let payer = p0.phase_player_queue@[0];
        &&& p1.phase_player_queue@ == p0.phase_player_queue@.drop_first().push(payer)
        &&& p1.game_table.main_total() == p0.game_table.main_total() + p0.ante_amount
        &&& p1.game_table.remaining_of(payer) == p0.game_table.remaining_of(payer)
            - p0.ante_amount
        &&& (forall|q: u128|
            q != payer ==> al_get(p1.game_table.player_credits@, q) == al_get(
                p0.game_table.player_credits@,
                q,
            ))
        &&& (forall|q: u128|
            al_contains(p1.main_contribs(), q) <==> (al_contains(p0.main_contribs(), q) || q
                == payer))
    }))
    &&& p1.card_deck == p0.card_deck
    &&& (forall|q: u128| p1.game_table.starting_of(q) == p0.game_table.starting_of(q))
    &&& p1.game_table.player_ids@ == p0.game_table.player_ids@
}

/// One dealing step: the front player receives exactly the five cards off
/// the top of the deck and the turn passes on.
pub open spec fn dealing_act_rel(p0: PokerPhaseDealing, p1: PokerPhaseDealing) -> bool {
    &&& p1.ante_amount == p0.ante_amount
    &&& p1.game_table == p0.game_table
    &&& p1.player_hands@.len() == p0.player_hands@.len() + 1
    &&& (p0.phase_player_queue@.len() > 0 ==> ({
        let dealt = p0.phase_player_queue@[0];
        let d0 = p0.card_deck.deck_view();
        let l = d0.len() as int;
        &&& p1.phase_player_queue@ == p0.phase_player_queue@.drop_first().push(dealt)
        &&& (al_get(p1.player_hands@, dealt) matches Some(h) && h.wf() && h.cards@ == seq![
            d0[l - 1],
            d0[l - 2],
            d0[l - 3],
            d0[l - 4],
            d0[l - 5],
        ])
        &&& (forall|q: u128|
            q != dealt ==> al_get(p1.player_hands@, q) == al_get(p0.player_hands@, q))
        &&& p1.card_deck.deck_view() == d0.take(l - 5)
        &&& p1.card_deck.discards() == p0.card_deck.discards()
    }))
}

/// One betting step: the first action round closes and the turn passes on;
/// hands, bets and credits only move through player actions.
pub open spec fn betting_act_rel(b0: PokerPhaseBetting, b1: PokerPhaseBetting) -> bool {
    &&& b1.first_round_action == false
    &&& b1.game_table == b0.game_table
    &&& b1.player_hands@ == b0.player_hands@
    &&& b1.player_bets@ == b0.player_bets@
    &&& b1.card_deck == b0.card_deck
    &&& (b0.phase_player_queue@.len() > 0 ==> b1.phase_player_queue@
        == b0.phase_player_queue@.drop_first().push(b0.phase_player_queue@[0]))
}

/// One discarding step: only the turn marker moves; declarations arrive
/// through player actions.
pub open spec fn discarding_act_rel(
    p0: PokerPhaseDrawingDiscarding,
    p1: PokerPhaseDrawingDiscarding,
) -> bool {
    &&& p1.game_table == p0.game_table
    &&& p1.player_hands@ == p0.player_hands@
    &&& p1.player_bets@ == p0.player_bets@
    &&& p1.player_discarded_cards@ == p0.player_discarded_cards@
    &&& p1.card_deck == p0.card_deck
    &&& (p0.phase_player_queue@.len() > 0 ==> p1.phase_player_queue@
        == p0.phase_player_queue@.drop_first().push(p0.phase_player_queue@[0]))
}

/// One replacement step: the front player's declaration resolves — kept
/// cards stay in their slots and each declared slot takes the next card
/// off the top of the deck — and the turn passes on.
pub open spec fn drawing_dealing_act_rel(
    p0: PokerPhaseDrawingDealing,
    p1: PokerPhaseDrawingDealing,
) -> bool {
    &&& p1.game_table == p0.game_table
    &&& p1.player_bets@ == p0.player_bets@
    &&& p1.card_deck.discards() == p0.card_deck.discards()
    &&& (p0.phase_player_queue@.len() > 0 ==> ({
        let fp = p0.phase_player_queue@[0];
        &&& p1.phase_player_queue@ == p0.phase_player_queue@.drop_first().push(fp)
        &&& !al_contains(p1.player_discarded_cards@, fp)
        &&& (!al_contains(p0.player_discarded_cards@, fp) ==> p1.player_hands@
            == p0.player_hands@ && p1.card_deck == p0.card_deck
            && p1.player_discarded_cards@ == p0.player_discarded_cards@)
        &&& (al_get(p0.player_discarded_cards@, fp) == Some(None::<Vec<Card>>)
            ==> p1.player_hands@ == p0.player_hands@ && p1.card_deck == p0.card_deck)
        &&& ((al_get(p0.player_discarded_cards@, fp) matches Some(Some(_))) ==> ({
            let dv = (al_get(p0.player_discarded_cards@, fp)->Some_0->Some_0)@;
            let hand0 = al_get(p0.player_hands@, fp)->Some_0;
            let d0 = p0.card_deck.deck_view();
            &&& (al_get(p1.player_hands@, fp) matches Some(h) && h.wf() && h.cards@
                == replenished_upto(hand0.cards@, dv, d0, 5))
            &&& p1.card_deck.deck_view() == d0.take(
                d0.len() - drawn_before(hand0.cards@, dv, 5),
            )
            &&& (forall|q: u128|
                q != fp ==> al_get(p1.player_hands@, q) == al_get(p0.player_hands@, q))
        }))
    }))
}

/// The showdown's single step: hands are revealed, the winners named, and
/// the main pot split equally with the remainder staying put.
pub open spec fn showdown_act_rel(p0: PokerPhaseShowdown, p1: PokerPhaseShowdown) -> bool {
    &&& p1.player_hands@ == p0.player_hands@
    &&& p1.phase_player_queue@ == p0.phase_player_queue@
    &&& p1.results is Some
    &&& (forall|q: u128| p1.game_table.starting_of(q) == p0.game_table.starting_of(q))
    &&& (p1.results matches Some(res) ==> ({
        let wviews = crate::hand::spec_winners(
            crate::hand::cards_views(crate::showdown::hands_values(p0.player_hands@)),
        );
        &&& (forall|i: int|
            0 <= i < p0.player_hands@.len() ==> (res.winner_ids@.contains(
                (#[trigger] p0.player_hands@[i]).0,
            ) <==> crate::hand::seq_has(wviews, p0.player_hands@[i].1.cards@)))
        &&& (wviews.len() > 0 ==> res.winning_rank == crate::hand_rank::spec_category(
            wviews[0],
        ))
        &&& (res.winner_ids@.len() == 0 ==> p1.game_table == p0.game_table)
        &&& (res.winner_ids@.len() > 0 ==> ({
            let n = res.winner_ids@.len() as int;
            let total0 = p0.game_table.main_total();
            &&& p1.game_table.main_total() == total0 % n
            &&& (forall|j: int|
                0 <= j < n ==> p1.game_table.remaining_of(#[trigger] res.winner_ids@[j])
                    == p0.game_table.remaining_of(res.winner_ids@[j]) + total0 / n)
            &&& res.pot_distribution@.len() == 1
            &&& res.pot_distribution@[0].1.total_credits as int == total0
            &&& res.pot_distribution@[0].1.credits_per_winner as int == total0 / n
            &&& res.pot_distribution@[0].1.player_ids@ == res.winner_ids@
        }))
    }))
}

/// One atomic step of the current phase, variant by variant.
pub open spec fn act_rel(pre: PokerPhase, post: PokerPhase) -> bool {
    match pre {
        PokerPhase::Ante(p0) => (post matches PokerPhase::Ante(p1) && ante_act_rel(p0, p1)),
        PokerPhase::Dealing(p0) => (post matches PokerPhase::Dealing(p1) && dealing_act_rel(
            p0,
            p1,
        )),
        PokerPhase::FirstBetting(p0) => (post matches PokerPhase::FirstBetting(p1)
            && betting_act_rel(p0.0, p1.0)),
        PokerPhase::DrawingDiscarding(p0) => (post matches PokerPhase::DrawingDiscarding(p1)
            && discarding_act_rel(p0, p1)),
        PokerPhase::DrawingDealing(p0) => (post matches PokerPhase::DrawingDealing(p1)
            && drawing_dealing_act_rel(p0, p1)),
        PokerPhase::SecondBetting(p0) => (post matches PokerPhase::SecondBetting(p1)
            && betting_act_rel(p0.0, p1.0)),
        PokerPhase::Showdown(p0) => (post matches PokerPhase::Showdown(p1) && showdown_act_rel(
            p0,
            p1,
        )),
    }
}

/// The successor map: the linear phase order with the last-man-standing
/// short-circuit, the per-phase state carried forward, and the one
/// reshuffle at the turn into replacement dealing.
pub open spec fn next_rel(pre: PokerPhase, r: Option<PokerPhase>) -> bool {
    match pre {
        PokerPhase::Ante(a) => (r matches Some(PokerPhase::Dealing(d)) && d.game_table
            == a.game_table && d.card_deck == a.card_deck && d.ante_amount == a.ante_amount
            && d.player_hands@.len() == 0),
        PokerPhase::Dealing(dl) => (r matches Some(PokerPhase::FirstBetting(b))
            && b.0.game_table == dl.game_table && b.0.card_deck == dl.card_deck
            && b.0.player_hands@ == dl.player_hands@ && b.0.player_bets@.len() == 0
            && b.0.first_round_action),
        PokerPhase::FirstBetting(b) => if b.0.player_hands@.len() == 1 {
            (r matches Some(PokerPhase::Showdown(sd)) && sd.game_table == b.0.game_table
                && sd.player_hands@ == b.0.player_hands@ && sd.results is None)
        } else {
            (r matches Some(PokerPhase::DrawingDiscarding(dd)) && dd.game_table
                == b.0.game_table && dd.card_deck == b.0.card_deck && dd.player_hands@
                == b.0.player_hands@ && dd.player_bets@ == b.0.player_bets@
                && dd.player_discarded_cards@.len() == 0)
        },
        PokerPhase::DrawingDiscarding(dd) => (r matches Some(PokerPhase::DrawingDealing(rd))
            && rd.game_table == dd.game_table && rd.player_hands@ == dd.player_hands@
            && rd.player_bets@ == dd.player_bets@ && rd.player_discarded_cards@
            == dd.player_discarded_cards@ && rd.card_deck.deck_view().to_multiset()
            == dd.card_deck.deck_view().to_multiset().add(dd.card_deck.discards().to_multiset())
            && rd.card_deck.discards().len() == 0),
        PokerPhase::DrawingDealing(rd) => (r matches Some(PokerPhase::SecondBetting(b))
            && b.0.game_table == rd.game_table && b.0.card_deck == rd.card_deck
            && b.0.player_hands@ == rd.player_hands@ && b.0.player_bets@ == rd.player_bets@
            && b.0.first_round_action),
        PokerPhase::SecondBetting(b) => (r matches Some(PokerPhase::Showdown(sd))
            && sd.game_table == b.0.game_table && sd.player_hands@ == b.0.player_hands@
            && sd.results is None),
        PokerPhase::Showdown(_) => r is None,
    }
}

/// Routing a betting action: in a betting round it behaves as the round's
/// handler says; any other phase rejects it as a failed precondition,
/// changing nothing.
pub open spec fn betting_route_rel(
    pre: PokerPhase,
    post: PokerPhase,
    p: u128,
    action: BettingRoundAction,
    r: Result<(), AppError>,
) -> bool {
    &&& (pre matches PokerPhase::FirstBetting(b0) ==> (post matches PokerPhase::FirstBetting(b1)
        && betting_action_rel(b0.0, b1.0, p, action, r)))
    &&& (pre matches PokerPhase::SecondBetting(b0) ==> (post matches PokerPhase::SecondBetting(
        b1,
    ) && betting_action_rel(b0.0, b1.0, p, action, r)))
    &&& (!(pre is FirstBetting) && !(pre is SecondBetting) ==> ((r matches Err(e)
        && e is PreconditionFailed) && post == pre))
}

/// What a discard declaration does, stated over the discarding stage.
pub open spec fn drawing_action_rel(
    pre: PokerPhaseDrawingDiscarding,
    post: PokerPhaseDrawingDiscarding,
    p: u128,
    cards: Option<DiscardedCards>,
    r: Result<(), AppError>,
) -> bool {
    &&& post.game_table == pre.game_table
    &&& post.player_hands@ == pre.player_hands@
    &&& post.player_bets@ == pre.player_bets@
    &&& post.phase_player_queue@ == pre.phase_player_queue@
    &&& (r is Ok <==> (!al_contains(pre.player_discarded_cards@, p) && al_contains(
        pre.player_hands@,
        p,
    ) && (match cards {
        None => true,
        Some(d) => selection_in_hand(d.0@, al_get(pre.player_hands@, p)->Some_0),
    })))
    &&& (r is Ok ==> al_get(post.player_discarded_cards@, p) == Some(
        match cards {
            None => None::<Vec<Card>>,
            Some(d) => Some(d.0),
        },
    ))
    &&& (r is Ok ==> (forall|q: u128|
        q != p ==> al_get(post.player_discarded_cards@, q) == al_get(
            pre.player_discarded_cards@,
            q,
        )))
    &&& (r is Ok ==> (cards matches Some(d) ==> post.card_deck.discards()
        == pre.card_deck.discards() + d.0@ && post.card_deck.deck_view()
        == pre.card_deck.deck_view()))
    &&& ((r is Ok && cards is None) ==> post.card_deck == pre.card_deck)
    &&& (r is Err ==> post == pre && (r->Err_0 is InvalidRequest))
}

/// Routing a discard declaration: in the discarding stage it records the
/// declaration; any other phase rejects it as a failed precondition.
pub open spec fn drawing_route_rel(
    pre: PokerPhase,
    post: PokerPhase,
    p: u128,
    cards: Option<DiscardedCards>,
    r: Result<(), AppError>,
) -> bool {
    &&& (pre matches PokerPhase::DrawingDiscarding(d0) ==> (
    post matches PokerPhase::DrawingDiscarding(d1) && drawing_action_rel(d0, d1, p, cards, r)))
    &&& (!(pre is DrawingDiscarding) ==> ((r matches Err(e) && e is PreconditionFailed) && post
        == pre))
}

/// The deadline rule, routed: a betting round forces a call or fold, the
/// discarding stage records a kept hand, anywhere else nothing happens.
pub open spec fn timeout_route_rel(
    pre: PokerPhase,
    post: PokerPhase,
    p: u128,
    r: Result<(), AppError>,
) -> bool {
    &&& (pre matches PokerPhase::FirstBetting(b0) ==> (post matches PokerPhase::FirstBetting(b1)
        && timeout_rel(b0.0, b1.0, p, r)))
    &&& (pre matches PokerPhase::SecondBetting(b0) ==> (post matches PokerPhase::SecondBetting(
        b1,
    ) && timeout_rel(b0.0, b1.0, p, r)))
    &&& (pre matches PokerPhase::DrawingDiscarding(d0) ==> (
    post matches PokerPhase::DrawingDiscarding(d1) && drawing_action_rel(d0, d1, p, None, r)))
    &&& (!(pre is FirstBetting) && !(pre is SecondBetting) && !(pre is DrawingDiscarding) ==> (
    r is Ok && post == pre))
}

impl PokerPhase {
    pub open spec fn wf(self) -> bool {
        match self {
            PokerPhase::Ante(p) => p.wf(),
            PokerPhase::Dealing(p) => p.wf(),
            PokerPhase::FirstBetting(p) => p.0.wf(),
            PokerPhase::DrawingDiscarding(p) => p.wf(),
            PokerPhase::DrawingDealing(p) => p.wf(),
            PokerPhase::SecondBetting(p) => p.0.wf(),
            PokerPhase::Showdown(p) => p.wf(),
        }
    }

    /// Whether the phase has no further steps.
    pub open spec fn completed_spec(self) -> bool {
        match self {
            PokerPhase::Ante(p) => p.complete(),
            PokerPhase::Dealing(p) => p.complete(),
            PokerPhase::FirstBetting(p) => p.0.complete(),
            PokerPhase::DrawingDiscarding(p) => p.complete(),
            PokerPhase::DrawingDealing(p) => p.complete(),
            PokerPhase::SecondBetting(p) => p.0.complete(),
            PokerPhase::Showdown(p) => p.complete(),
        }
    }

    /// The hands the phase carries; the ante phase has none yet.
    pub open spec fn hands_spec(self) -> Seq<(u128, Hand)> {
        match self {
            PokerPhase::Ante(_) => Seq::empty(),
            PokerPhase::Dealing(p) => p.player_hands@,
            PokerPhase::FirstBetting(p) => p.0.player_hands@,
            PokerPhase::DrawingDiscarding(p) => p.player_hands@,
            PokerPhase::DrawingDealing(p) => p.player_hands@,
            PokerPhase::SecondBetting(p) => p.0.player_hands@,
            PokerPhase::Showdown(p) => p.player_hands@,
        }
    }

    /// The pending discard declarations; only the drawing stages carry any.
    pub open spec fn decls_spec(self) -> Seq<(u128, Option<Vec<Card>>)> {
        match self {
            PokerPhase::DrawingDiscarding(p) => p.player_discarded_cards@,
            PokerPhase::DrawingDealing(p) => p.player_discarded_cards@,
            _ => Seq::empty(),
        }
    }

    /// The player expected to act: the front of the queue in the ordered
    /// phases, nobody while discarding or at the showdown.
    pub open spec fn active_player_spec(self) -> Option<u128> {
        match self {
            PokerPhase::Ante(p) => front_of(p.phase_player_queue@),
            PokerPhase::Dealing(p) => front_of(p.phase_player_queue@),
            PokerPhase::FirstBetting(p) => front_of(p.0.phase_player_queue@),
            PokerPhase::DrawingDiscarding(_) => None,
            PokerPhase::DrawingDealing(p) => front_of(p.phase_player_queue@),
            PokerPhase::SecondBetting(p) => front_of(p.0.phase_player_queue@),
            PokerPhase::Showdown(_) => None,
        }
    }

    /// What the driver awaits before the next step: the automatic phases
    /// pace at half a second, the player-driven phases wait on an event
    /// with a 15-second deadline keyed to the front player, and a settled
    /// showdown ends the driver.
    pub open spec fn progression_spec(self) -> Option<ActionProgression> {
        match self {
            PokerPhase::Ante(_) => Some(ActionProgression::Delay(500u64)),
            PokerPhase::Dealing(_) => Some(ActionProgression::Delay(500u64)),
            PokerPhase::FirstBetting(p) => Some(
                ActionProgression::Event(15000u64, p.0.phase_player_queue@[0]),
            ),
            PokerPhase::DrawingDiscarding(p) => Some(
                ActionProgression::Event(15000u64, p.phase_player_queue@[0]),
            ),
            PokerPhase::DrawingDealing(_) => Some(ActionProgression::Delay(500u64)),
            PokerPhase::SecondBetting(p) => Some(
                ActionProgression::Event(15000u64, p.0.phase_player_queue@[0]),
            ),
            PokerPhase::Showdown(_) => None,
        }
    }

    /// Whether the player may act now: the front of the queue in a betting
    /// round, anyone while discarding, nobody elsewhere.
    pub open spec fn can_act_spec(self, p: u128) -> bool {
        match self {
            PokerPhase::FirstBetting(b) => p == b.0.phase_player_queue@[0],
            PokerPhase::SecondBetting(b) => p == b.0.phase_player_queue@[0],
            PokerPhase::DrawingDiscarding(_) => true,
            _ => false,
        }
    }

    /// Opens a match in the ante phase with a fresh shuffled deck.
    pub fn new(game_table: GameTable, ante_amount: u64) -> (p: PokerPhase)
        requires
            game_table.wf(),
            game_table.pots_wf(),
            game_table.players_wf(),
            game_table.main_total() == 0,
            game_table.credit_pots@[0].1.player_credits@.len() == 0,
            forall|i: int|
                0 <= i < game_table.player_queue_immut@.len() ==> game_table.remaining_of(
                    #[trigger] game_table.player_queue_immut@[i],
                ) >= ante_amount,
        ensures
            p.wf(),
            p is Ante,
    {
        PokerPhase::Ante(PokerPhaseAnte::new(game_table, ante_amount))
    }

    /// One atomic phase step, never blocking: post an ante, deal a hand,
    /// rotate the betting turn, replace discards, or settle the showdown.
    pub fn act(&mut self)
        requires
            old(self).wf(),
            !old(self).completed_spec(),
        ensures
            final(self).wf(),
            act_rel(*old(self), *final(self)),
    {
        match self {
            PokerPhase::Ante(p) => p.act(),
            PokerPhase::Dealing(p) => p.act(),
            PokerPhase::FirstBetting(p) => p.0.act(),
            PokerPhase::DrawingDiscarding(p) => p.act(),
            PokerPhase::DrawingDealing(p) => p.act(),
            PokerPhase::SecondBetting(p) => p.0.act(),
            PokerPhase::Showdown(p) => p.act(),
        }
    }

    pub fn is_phase_completed(&self) -> (r: bool)
        requires
            self.wf(),
        ensures
            r == self.completed_spec(),
    {
        match self {
            PokerPhase::Ante(p) => p.is_phase_completed(),
            PokerPhase::Dealing(p) => p.is_phase_completed(),
            PokerPhase::FirstBetting(p) => p.0.is_phase_completed(),
            PokerPhase::DrawingDiscarding(p) => p.is_phase_completed(),
            PokerPhase::DrawingDealing(p) => p.is_phase_completed(),
            PokerPhase::SecondBetting(p) => p.0.is_phase_completed(),
            PokerPhase::Showdown(p) => p.is_phase_completed(),
        }
    }

    /// Consumes a completed phase and yields its successor; `None` ends the
    /// match after the showdown. A first betting round won by the last
    /// standing player short-circuits to the showdown.
    pub fn next_phase(self) -> (r: Option<PokerPhase>)
        requires
            self.wf(),
            self.completed_spec(),
        ensures
            r matches Some(p) ==> p.wf(),
            r is None <==> self is Showdown,
            next_rel(self, r),
    {
        match self {
            PokerPhase::Ante(p) => Some(
                PokerPhase::Dealing(PokerPhaseDealing::from_ante(p)),
            ),
            PokerPhase::Dealing(p) => Some(
                PokerPhase::FirstBetting(PokerPhaseFirstBetting::from_dealing(p)),
            ),
            PokerPhase::FirstBetting(p) => {
                if p.0.player_hands.len() == 1 {
                    Some(PokerPhase::Showdown(PokerPhaseShowdown::from_betting(p.0)))
                } else {
                    Some(
                        PokerPhase::DrawingDiscarding(
                            PokerPhaseDrawingDiscarding::from_first_betting(p),
                        ),
                    )
                }
            },
            PokerPhase::DrawingDiscarding(p) => Some(
                PokerPhase::DrawingDealing(PokerPhaseDrawingDealing::from_drawing_discarding(p)),
            ),
            PokerPhase::DrawingDealing(p) => Some(
                PokerPhase::SecondBetting(PokerPhaseSecondBetting::from_drawing_dealing(p)),
            ),
            PokerPhase::SecondBetting(p) => Some(
                PokerPhase::Showdown(PokerPhaseShowdown::from_betting(p.0)),
            ),
            PokerPhase::Showdown(_) => None,
        }
    }

    /// The player expected to act, if the phase has one.
    pub fn get_active_player_id(&self) -> (r: Option<u128>)
        requires
            self.wf(),
        ensures
            r == self.active_player_spec(),
    {
        match self {
            PokerPhase::Ante(p) => p.get_active_player_id(),
            PokerPhase::Dealing(p) => p.get_active_player_id(),
            PokerPhase::FirstBetting(p) => p.0.get_active_player_id(),
            PokerPhase::DrawingDiscarding(p) => p.get_active_player_id(),
            PokerPhase::DrawingDealing(p) => p.get_active_player_id(),
            PokerPhase::SecondBetting(p) => p.0.get_active_player_id(),
            PokerPhase::Showdown(_) => None,
        }
    }

    /// What the driver should await before the next step; `None` after the
    /// showdown settles, which ends the driver.
    pub fn get_action_progression(&self) -> (r: Option<ActionProgression>)
        requires
            self.wf(),
        ensures
            r == self.progression_spec(),
    {
        match self {
            PokerPhase::Ante(p) => Some(p.get_action_progression()),
            PokerPhase::Dealing(p) => Some(p.get_action_progression()),
            PokerPhase::FirstBetting(p) => {
                proof {
                    crate::phase::lemma_queue_shape(
                        p.0.phase_player_queue@,
                        p.0.game_table.player_ids@,
                    );
                }
                Some(ActionProgression::event(15000, p.0.phase_player_queue[0]))
            },
            PokerPhase::DrawingDiscarding(p) => {
                proof {
                    crate::phase::lemma_queue_shape(
                        p.phase_player_queue@,
                        p.game_table.player_ids@,
                    );
                }
                Some(p.get_action_progression())
            },
            PokerPhase::DrawingDealing(p) => Some(p.get_action_progression()),
            PokerPhase::SecondBetting(p) => {
                proof {
                    crate::phase::lemma_queue_shape(
                        p.0.phase_player_queue@,
                        p.0.game_table.player_ids@,
                    );
                }
                Some(ActionProgression::event(15000, p.0.phase_player_queue[0]))
            },
            PokerPhase::Showdown(_) => None,
        }
    }

    /// Routes a betting action to the current round; outside the betting
    /// phases it is rejected.
    pub fn handle_betting_action(
        &mut self,
        player_id: u128,
        betting_action: BettingRoundAction,
    ) -> (r: Result<(), AppError>)
        requires
            old(self).wf(),
        ensures
            final(self).wf(),
            betting_route_rel(*old(self), *final(self), player_id, betting_action, r),
    {
        match self {
            PokerPhase::FirstBetting(p) => {
                proof {
                    crate::phase::lemma_queue_shape(
                        p.0.phase_player_queue@,
                        p.0.game_table.player_ids@,
                    );
                }
                p.0.handle_betting_action(player_id, betting_action)
            },
            PokerPhase::SecondBetting(p) => {
                proof {
                    crate::phase::lemma_queue_shape(
                        p.0.phase_player_queue@,
                        p.0.game_table.player_ids@,
                    );
                }
                p.0.handle_betting_action(player_id, betting_action)
            },
            _ => Err(AppError::precondition_failed("Game not currently in Betting phase!")),
        }
    }

    /// Routes a discard declaration; outside the discarding stage it is
    /// rejected.
    pub fn handle_drawing_action(
        &mut self,
        player_id: u128,
        discarded_cards: Option<DiscardedCards>,
    ) -> (r: Result<(), AppError>)
        requires
            old(self).wf(),
            discarded_cards matches Some(d) ==> d.wf(),
        ensures
            final(self).wf(),
            drawing_route_rel(*old(self), *final(self), player_id, discarded_cards, r),
    {
        match self {
            PokerPhase::DrawingDiscarding(p) => p.player_discards(player_id, discarded_cards),
            _ => Err(
                AppError::precondition_failed("Game not currently in DrawingDiscard phase!"),
            ),
        }
    }

    /// The deadline rule for the named player: forced call or fold while
    /// betting, a kept hand while discarding, nothing elsewhere.
    pub fn handle_timeout(&mut self, player_id: u128) -> (r: Result<(), AppError>)
        requires
            old(self).wf(),
        ensures
            final(self).wf(),
            timeout_route_rel(*old(self), *final(self), player_id, r),
    {
        match self {
            PokerPhase::FirstBetting(p) => {
                proof {
                    crate::phase::lemma_queue_shape(
                        p.0.phase_player_queue@,
                        p.0.game_table.player_ids@,
                    );
                }
                p.0.handle_timeout(player_id)
            },
            PokerPhase::SecondBetting(p) => {
                proof {
                    crate::phase::lemma_queue_shape(
                        p.0.phase_player_queue@,
                        p.0.game_table.player_ids@,
                    );
                }
                p.0.handle_timeout(player_id)
            },
            PokerPhase::DrawingDiscarding(p) => p.player_discards(player_id, None),
            _ => Ok(()),
        }
    }

    /// The table under the current phase.
    pub fn get_table(&self) -> (t: &GameTable)
        ensures
            t == self.table_spec(),
    {
        match self {
            PokerPhase::Ante(p) => &p.game_table,
            PokerPhase::Dealing(p) => &p.game_table,
            PokerPhase::FirstBetting(p) => &p.0.game_table,
            PokerPhase::DrawingDiscarding(p) => &p.game_table,
            PokerPhase::DrawingDealing(p) => &p.game_table,
            PokerPhase::SecondBetting(p) => &p.0.game_table,
            PokerPhase::Showdown(p) => &p.game_table,
        }
    }

    pub open spec fn table_spec(self) -> GameTable {
        match self {
            PokerPhase::Ante(p) => p.game_table,
            PokerPhase::Dealing(p) => p.game_table,
            PokerPhase::FirstBetting(p) => p.0.game_table,
            PokerPhase::DrawingDiscarding(p) => p.game_table,
            PokerPhase::DrawingDealing(p) => p.game_table,
            PokerPhase::SecondBetting(p) => p.0.game_table,
            PokerPhase::Showdown(p) => p.game_table,
        }
    }

    /// The recorded bets of the round, where the phase tracks them.
    pub fn get_player_bet_amounts(&self) -> (r: Option<Vec<(u128, u64)>>)
        requires
            self.wf(),
        ensures
            match *self {
                // before the first bet the display shows each contributor
                // standing at the ante
                PokerPhase::Ante(p) => (r matches Some(v) && v@.len()
                    == p.game_table.credit_pots@[0].1.player_credits@.len() && (forall|i: int|
                    0 <= i < v@.len() ==> (#[trigger] v@[i]).0
                        == p.game_table.credit_pots@[0].1.player_credits@[i].0 && v@[i].1
                        == p.ante_amount)),
                PokerPhase::Dealing(p) => (r matches Some(v) && v@.len()
                    == p.game_table.credit_pots@[0].1.player_credits@.len() && (forall|i: int|
                    0 <= i < v@.len() ==> (#[trigger] v@[i]).0
                        == p.game_table.credit_pots@[0].1.player_credits@[i].0 && v@[i].1
                        == p.ante_amount)),
                PokerPhase::FirstBetting(p) => r matches Some(v) && v@ == p.0.player_bets@,
                PokerPhase::SecondBetting(p) => r matches Some(v) && v@ == p.0.player_bets@,
                PokerPhase::DrawingDiscarding(p) => r matches Some(v) && v@ == p.player_bets@,
                PokerPhase::DrawingDealing(p) => r matches Some(v) && v@ == p.player_bets@,
                PokerPhase::Showdown(_) => r is None,
            },
    {
        match self {
            PokerPhase::Ante(p) => Some(ante_bet_amounts(&p.game_table, p.ante_amount)),
            PokerPhase::Dealing(p) => Some(ante_bet_amounts(&p.game_table, p.ante_amount)),
            PokerPhase::FirstBetting(p) => Some(p.0.get_player_bet_amounts()),
            PokerPhase::DrawingDiscarding(p) => Some(copy_bets(&p.player_bets)),
            PokerPhase::DrawingDealing(p) => Some(copy_bets(&p.player_bets)),
            PokerPhase::SecondBetting(p) => Some(p.0.get_player_bet_amounts()),
            PokerPhase::Showdown(_) => None,
        }
    }

    /// Whether each player may act now.
    pub fn can_player_act(&self) -> (r: Vec<(u128, bool)>)
        requires
            self.wf(),
        ensures
            r@.len() == self.table_spec().player_ids@.len(),
            forall|i: int|
                0 <= i < r@.len() ==> (#[trigger] r@[i]).0 == self.table_spec().player_ids@[i]
                    && (r@[i].1 <==> self.can_act_spec(self.table_spec().player_ids@[i])),
    {
        match self {
            PokerPhase::FirstBetting(p) => {
                proof {
                    crate::phase::lemma_queue_shape(
                        p.0.phase_player_queue@,
                        p.0.game_table.player_ids@,
                    );
                }
                p.0.can_player_act()
            },
            PokerPhase::SecondBetting(p) => {
                proof {
                    crate::phase::lemma_queue_shape(
                        p.0.phase_player_queue@,
                        p.0.game_table.player_ids@,
                    );
                }
                p.0.can_player_act()
            },
            PokerPhase::DrawingDiscarding(p) => all_flagged(&p.game_table, true),
            PokerPhase::Ante(p) => all_flagged(&p.game_table, false),
            PokerPhase::Dealing(p) => all_flagged(&p.game_table, false),
            PokerPhase::DrawingDealing(p) => all_flagged(&p.game_table, false),
            PokerPhase::Showdown(p) => all_flagged(&p.game_table, false),
        }
    }
}

/// Ante-stage bet display: each contributor stands at the ante amount.
fn ante_bet_amounts(table: &GameTable, ante_amount: u64) -> (r: Vec<(u128, u64)>)
    requires
        table.credit_pots@.len() >= 1,
    ensures
        r@.len() == table.credit_pots@[0].1.player_credits@.len(),
        forall|i: int|
            0 <= i < r@.len() ==> (#[trigger] r@[i]).0
                == table.credit_pots@[0].1.player_credits@[i].0 && r@[i].1 == ante_amount,
{
    let contribs = &table.credit_pots[0].1.player_credits;
    let mut r: Vec<(u128, u64)> = Vec::new();
    let mut i: usize = 0;
    while i < contribs.len()
        invariant
            0 <= i <= contribs@.len(),
            contribs@ == table.credit_pots@[0].1.player_credits@,
            table.credit_pots@.len() >= 1,
            r@.len() == i,
            forall|j: int|
                0 <= j < i ==> (#[trigger] r@[j]).0 == contribs@[j].0 && r@[j].1 == ante_amount,
        decreases contribs@.len() - i,
    {
        r.push((contribs[i].0, ante_amount));
        i = i + 1;
    }
    r
}

fn copy_bets(v: &Vec<(u128, u64)>) -> (out: Vec<(u128, u64)>)
    ensures
        out@ == v@,
{
    let mut out: Vec<(u128, u64)> = Vec::new();
    let mut i: usize = 0;
    while i < v.len()
        invariant
            0 <= i <= v@.len(),
            out@ == v@.take(i as int),
        decreases v@.len() - i,
    {
        out.push(v[i]);
        proof {
            assert(v@.take(i + 1) =~= v@.take(i as int).push(v@[i as int]));
        }
        i = i + 1;
    }
    proof {
        assert(v@.take(v@.len() as int) =~= v@);
    }
    out
}

fn all_flagged(table: &GameTable, flag: bool) -> (r: Vec<(u128, bool)>)
    ensures
        r@.len() == table.player_ids@.len(),
        forall|i: int|
            0 <= i < r@.len() ==> (#[trigger] r@[i]).0 == table.player_ids@[i] && r@[i].1 == flag,
{
    let mut r: Vec<(u128, bool)> = Vec::new();
    let mut i: usize = 0;
    while i < table.player_ids.len()
        invariant
            0 <= i <= table.player_ids@.len(),
            r@.len() == i,
            forall|j: int|
                0 <= j < i ==> (#[trigger] r@[j]).0 == table.player_ids@[j] && r@[j].1 == flag,
        decreases table.player_ids@.len() - i,
    {
        r.push((table.player_ids[i], flag));
        i = i + 1;
    }
    r
}

/// The driver-facing state of one match: the current phase and when it last
/// stepped. The owning task holds it behind a lock and drives it.
#[derive(Clone, Debug)]
pub struct GamePhase {
    pub poker_phase: PokerPhase,
    /// Milliseconds since the epoch of the last transition, as the driver
    /// reports them.
    pub state_time: i64,
}

impl GamePhase {
    pub open spec fn wf(self) -> bool {
        self.poker_phase.wf()
    }

    /// Seats the players, opens the main pot and starts the ante phase.
    pub fn new(match_id: u128, players: MatchStartPlayers, ante_amount: u64, now_ms: i64) -> (g:
        GamePhase)
        requires
            players.wf(),
            forall|j: int|
                0 <= j < players.player_credits@.len() ==> (
                #[trigger] players.player_credits@[j]).1 >= ante_amount,
        ensures
            g.wf(),
            g.poker_phase is Ante,
            g.state_time == now_ms,
    {
        let game_table = GameTable::new(match_id, players);
        proof {
            assert forall|i: int|
                0 <= i < game_table.player_queue_immut@.len() implies game_table.remaining_of(
                #[trigger] game_table.player_queue_immut@[i],
            ) >= ante_amount by {
                broadcast use vstd::seq_lib::group_to_multiset_ensures;

                let p = game_table.player_queue_immut@[i];
                let ks = players.player_credits@.map_values(|e: (u128, u64)| e.0);
                assert(game_table.player_queue_immut@.contains(p));
                assert(players.ordered_player_queue@.to_multiset().count(p) > 0);
                assert(ks.to_multiset().count(p) > 0);
                assert(ks.contains(p));
                let j = choose|j: int| 0 <= j < ks.len() && #[trigger] ks[j] == p;
                crate::kv::lemma_al_get_at(players.player_credits@, p, j);
            }
        }
        let poker_phase = PokerPhase::new(game_table, ante_amount);
        GamePhase { poker_phase, state_time: now_ms }
    }

    /// One driver step under the write lock: stamp the time and run the
    /// phase's next atomic action.
    pub fn advance(&mut self, now_ms: i64)
        requires
            old(self).wf(),
            !old(self).poker_phase.completed_spec(),
        ensures
            final(self).wf(),
            final(self).state_time == now_ms,
            act_rel(old(self).poker_phase, final(self).poker_phase),
    {
        self.state_time = now_ms;
        self.poker_phase.act();
    }

    pub fn is_phase_completed(&self) -> (r: bool)
        requires
            self.wf(),
        ensures
            r == self.poker_phase.completed_spec(),
    {
        self.poker_phase.is_phase_completed()
    }

    pub fn get_action_progression(&self) -> (r: Option<ActionProgression>)
        requires
            self.wf(),
        ensures
            r == self.poker_phase.progression_spec(),
    {
        self.poker_phase.get_action_progression()
    }

    pub fn handle_betting_action(
        &mut self,
        player_id: u128,
        betting_action: BettingRoundAction,
    ) -> (r: Result<(), AppError>)
        requires
            old(self).wf(),
        ensures
            final(self).wf(),
            betting_route_rel(
                old(self).poker_phase,
                final(self).poker_phase,
                player_id,
                betting_action,
                r,
            ),
    {
        self.poker_phase.handle_betting_action(player_id, betting_action)
    }

    pub fn handle_drawing_action(
        &mut self,
        player_id: u128,
        discarded_cards: Option<DiscardedCards>,
    ) -> (r: Result<(), AppError>)
        requires
            old(self).wf(),
            discarded_cards matches Some(d) ==> d.wf(),
        ensures
            final(self).wf(),
            drawing_route_rel(
                old(self).poker_phase,
                final(self).poker_phase,
                player_id,
                discarded_cards,
                r,
            ),
    {
        self.poker_phase.handle_drawing_action(player_id, discarded_cards)
    }

    pub fn handle_timeout(&mut self, player_id: u128) -> (r: Result<(), AppError>)
        requires
            old(self).wf(),
        ensures
            final(self).wf(),
            timeout_route_rel(old(self).poker_phase, final(self).poker_phase, player_id, r),
    {
        self.poker_phase.handle_timeout(player_id)
    }

    pub fn get_table(&self) -> (t: &GameTable)
        ensures
            t == self.poker_phase.table_spec(),
    {
        self.poker_phase.get_table()
    }

    pub fn get_player_bet_amounts(&self) -> (r: Option<Vec<(u128, u64)>>)
        requires
            self.wf(),
        ensures
            match self.poker_phase {
                // before the first bet the display shows each contributor
                // standing at the ante
                PokerPhase::Ante(p) => (r matches Some(v) && v@.len()
                    == p.game_table.credit_pots@[0].1.player_credits@.len() && (forall|i: int|
                    0 <= i < v@.len() ==> (#[trigger] v@[i]).0
                        == p.game_table.credit_pots@[0].1.player_credits@[i].0 && v@[i].1
                        == p.ante_amount)),
                PokerPhase::Dealing(p) => (r matches Some(v) && v@.len()
                    == p.game_table.credit_pots@[0].1.player_credits@.len() && (forall|i: int|
                    0 <= i < v@.len() ==> (#[trigger] v@[i]).0
                        == p.game_table.credit_pots@[0].1.player_credits@[i].0 && v@[i].1
                        == p.ante_amount)),
                PokerPhase::FirstBetting(p) => (r matches Some(v) && v@ == p.0.player_bets@),
                PokerPhase::SecondBetting(p) => (r matches Some(v) && v@ == p.0.player_bets@),
                PokerPhase::DrawingDiscarding(p) => (r matches Some(v) && v@ == p.player_bets@),
                PokerPhase::DrawingDealing(p) => (r matches Some(v) && v@ == p.player_bets@),
                PokerPhase::Showdown(_) => r is None,
            },
    {
        self.poker_phase.get_player_bet_amounts()
    }
}

} // verus!
