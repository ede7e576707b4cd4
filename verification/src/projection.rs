//! The per-recipient projection of match state: everyone sees their own
//! cards, and nobody sees another player's live card before the showdown.
use vstd::prelude::*;

use crate::card::Card;
use crate::poker::PokerPhase;
use crate::stateful::{StatefulCard, get_stateful_cards, slot_discarded};

verus! {

/// A card slot as one recipient sees it.
#[derive(Clone, Copy, PartialEq, Eq, Structural, Debug)]
pub enum HandCard {
    VisibleCard(Card),
    HiddenCard,
    DiscardedCard,
}

/// The masking rule for one slot: discarded slots show as discarded to
/// everyone; otherwise the card shows only to its owner, unless foreign
/// cards are unmasked at the showdown.
pub open spec fn spec_mask(c: StatefulCard, own: bool, mask_foreign_cards: bool) -> HandCard {
    if c.discarded {
        HandCard::DiscardedCard
    } else if own || !mask_foreign_cards {
        HandCard::VisibleCard(c.card)
    } else {
        HandCard::HiddenCard
    }
}

/// Applies the masking rule to a hand's slots. A masked foreign hand shows
/// no visible card.
pub fn mask_cards(cards: &Vec<StatefulCard>, own: bool, mask_foreign_cards: bool) -> (r: Vec<
    HandCard,
>)
    ensures
        r@.len() == cards@.len(),
        forall|i: int|
            0 <= i < r@.len() ==> #[trigger] r@[i] == spec_mask(
                cards@[i],
                own,
                mask_foreign_cards,
            ),
        mask_foreign_cards && !own ==> forall|i: int|
            0 <= i < r@.len() ==> !(#[trigger] r@[i] is VisibleCard),
{
    let mut r: Vec<HandCard> = Vec::new();
    let mut i: usize = 0;
    while i < cards.len()
        invariant
            0 <= i <= cards@.len(),
            r@.len() == i,
            forall|j: int|
                0 <= j < i ==> #[trigger] r@[j] == spec_mask(cards@[j], own, mask_foreign_cards),
        decreases cards@.len() - i,
    {
        let c = cards[i];
        let slot = if c.discarded {
            HandCard::DiscardedCard
        } else if own || !mask_foreign_cards {
            HandCard::VisibleCard(c.card)
        } else {
            HandCard::HiddenCard
        };
        r.push(slot);
        i = i + 1;
    }
    r
}

/// The card slots each phase exposes, annotated with discard state;
/// only the ante phase, before any card is dealt, exposes nothing.
pub fn phase_stateful_cards(phase: &PokerPhase) -> (r: Option<Vec<(u128, Vec<StatefulCard>)>>)
    requires
        phase.wf(),
    ensures
        r is Some <==> !(*phase is Ante),
        r matches Some(v) ==> v@.len() == phase.hands_spec().len() && (forall|i: int|
            0 <= i < v@.len() ==> (#[trigger] v@[i]).0 == phase.hands_spec()[i].0
                && v@[i].1@.len() == 5) && (forall|i: int, j: int|
            0 <= i < v@.len() && 0 <= j < 5 ==> (#[trigger] v@[i].1@[j]).card
                == phase.hands_spec()[i].1.cards@[j] && v@[i].1@[j].discarded == slot_discarded(
                phase.hands_spec(),
                phase.decls_spec(),
                i,
                j,
            )),
{
    match phase {
        PokerPhase::Ante(_) => None,
        PokerPhase::Dealing(p) => Some(get_stateful_cards(&p.player_hands, None)),
        PokerPhase::FirstBetting(p) => Some(get_stateful_cards(&p.0.player_hands, None)),
        PokerPhase::DrawingDiscarding(p) => Some(
            get_stateful_cards(&p.player_hands, Some(&p.player_discarded_cards)),
        ),
        PokerPhase::DrawingDealing(p) => Some(
            get_stateful_cards(&p.player_hands, Some(&p.player_discarded_cards)),
        ),
        PokerPhase::SecondBetting(p) => Some(get_stateful_cards(&p.0.player_hands, None)),
        PokerPhase::Showdown(p) => Some(get_stateful_cards(&p.player_hands, None)),
    }
}

/// Builds the per-recipient view of every player's card slots. Each slot
/// is the masking rule applied to the phase's cards: the recipient's own
/// live cards are visible, foreign live cards are hidden until the
/// showdown reveals them, discarded slots show as discarded to everyone.
pub fn phase_player_views(phase: &PokerPhase, recipient: u128) -> (r: Option<
    Vec<(u128, Vec<HandCard>)>,
>)
    requires
        phase.wf(),
    ensures
        r is Some <==> !(*phase is Ante),
        r matches Some(v) ==> v@.len() == phase.hands_spec().len() && (forall|i: int|
            0 <= i < v@.len() ==> (#[trigger] v@[i]).0 == phase.hands_spec()[i].0
                && v@[i].1@.len() == 5) && (forall|i: int, j: int|
            0 <= i < v@.len() && 0 <= j < 5 ==> #[trigger] v@[i].1@[j] == spec_mask(
                StatefulCard {
                    card: phase.hands_spec()[i].1.cards@[j],
                    discarded: slot_discarded(phase.hands_spec(), phase.decls_spec(), i, j),
                },
                phase.hands_spec()[i].0 == recipient,
                !(*phase is Showdown),
            )),
        // the hiding direction of the masking law, spelled out
        r matches Some(v) ==> forall|i: int, j: int|
            0 <= i < v@.len() && 0 <= j < (#[trigger] v@[i]).1@.len() && v@[i].0 != recipient
                && !(*phase is Showdown) ==> !(#[trigger] v@[i].1@[j] is VisibleCard),
{
    let mask_foreign_cards = match phase {
        PokerPhase::Showdown(_) => false,
        _ => true,
    };
    let stateful = match phase_stateful_cards(phase) {
        None => {
            return None;
        },
        Some(s) => s,
    };
    let gh = Ghost(phase.hands_spec());
    let gd = Ghost(phase.decls_spec());
    let mut r: Vec<(u128, Vec<HandCard>)> = Vec::new();
    let mut i: usize = 0;
    while i < stateful.len()
        invariant
            0 <= i <= stateful@.len(),
            mask_foreign_cards == !(*phase is Showdown),
            gh@ == phase.hands_spec(),
            gd@ == phase.decls_spec(),
            stateful@.len() == gh@.len(),
            forall|l: int|
                0 <= l < stateful@.len() ==> (#[trigger] stateful@[l]).0 == gh@[l].0
                    && stateful@[l].1@.len() == 5,
            forall|l: int, j: int|
                0 <= l < stateful@.len() && 0 <= j < 5 ==> (#[trigger] stateful@[l].1@[j]).card
                    == gh@[l].1.cards@[j] && stateful@[l].1@[j].discarded == slot_discarded(
                    gh@,
                    gd@,
                    l,
                    j,
                ),
            r@.len() == i,
            forall|l: int|
                0 <= l < i ==> (#[trigger] r@[l]).0 == gh@[l].0 && r@[l].1@.len() == 5,
            forall|l: int, j: int|
                0 <= l < i && 0 <= j < 5 ==> #[trigger] r@[l].1@[j] == spec_mask(
                    StatefulCard {
                        card: gh@[l].1.cards@[j],
                        discarded: slot_discarded(gh@, gd@, l, j),
                    },
                    gh@[l].0 == recipient,
                    mask_foreign_cards,
                ),
        decreases stateful@.len() - i,
    {
        let key = stateful[i].0;
        let own = key == recipient;
        let masked = mask_cards(&stateful[i].1, own, mask_foreign_cards);
        r.push((key, masked));
        i = i + 1;
    }
    proof {
        assert forall|i2: int, j: int|
            0 <= i2 < r@.len() && 0 <= j < (#[trigger] r@[i2]).1@.len() && r@[i2].0 != recipient
                && !(*phase is Showdown) implies !(#[trigger] r@[i2].1@[j] is VisibleCard) by {
            assert(r@[i2].1@[j] == spec_mask(
                StatefulCard {
                    card: gh@[i2].1.cards@[j],
                    discarded: slot_discarded(gh@, gd@, i2, j),
                },
                gh@[i2].0 == recipient,
                mask_foreign_cards,
            ));
        }
    }
    Some(r)
}

/// The phase-specific payload of a state snapshot, as broadcast to all
/// participants.
#[derive(Clone, Debug)]
pub enum MatchStatePhaseSpecifics {
    Ante,
    Dealing,
    FirstBetting(MatchStatePhaseSpecificsBetting),
    Drawing(MatchStatePhaseSpecificsDrawing),
    SecondBetting(MatchStatePhaseSpecificsBetting),
    Showdown(MatchStatePhaseSpecificsShowdown),
}

#[derive(Clone, Debug)]
pub struct MatchStatePhaseSpecificsBetting {
    pub highest_bet_amount: u64,
    pub player_bet_amounts: Vec<(u128, u64)>,
}

#[derive(Clone, Debug)]
pub enum MatchStatePhaseSpecificsDrawing {
    Discarding(DrawingStageDiscarding),
    Dealing,
}

/// How many cards each player has declared so far.
#[derive(Clone, Debug)]
pub struct DrawingStageDiscarding {
    pub player_discard_count: Vec<(u128, u64)>,
}

#[derive(Clone, Debug)]
pub struct MatchStatePhaseSpecificsShowdown {
    pub winning_rank: crate::hand_rank::HandRank,
    pub winner_ids: Vec<u128>,
    pub pot_distribution: Vec<(u128, crate::phase::ShowdownPotDistribution)>,
}

/// The phase payload a recipient sees: in a betting round the running bets
/// collapse to the recipient's own bet beside the high bet.
#[derive(Clone, Debug)]
pub enum MatchStatePhaseSpecificsAsPlayer {
    Ante,
    Dealing,
    FirstBetting(MatchStatePhaseSpecificsBettingAsPlayer),
    Drawing(MatchStatePhaseSpecificsDrawing),
    SecondBetting(MatchStatePhaseSpecificsBettingAsPlayer),
    Showdown(MatchStatePhaseSpecificsShowdown),
}

#[derive(Clone, Debug)]
pub struct MatchStatePhaseSpecificsBettingAsPlayer {
    pub highest_bet_amount: u64,
    pub self_bet_amount: u64,
}

/// Builds the broadcast payload of the current phase.
pub fn get_phase_specifics(phase: &PokerPhase) -> (r: MatchStatePhaseSpecifics)
    requires
        phase.wf(),
    ensures
        *phase is Ante ==> r is Ante,
        *phase is Dealing ==> r is Dealing,
        *phase is FirstBetting ==> r is FirstBetting,
        *phase is SecondBetting ==> r is SecondBetting,
        *phase is DrawingDiscarding || *phase is DrawingDealing ==> r is Drawing,
        *phase is Showdown ==> r is Showdown,
        (match *phase {
            PokerPhase::FirstBetting(b) => (r matches MatchStatePhaseSpecifics::FirstBetting(s)
                && s.player_bet_amounts@ == b.0.player_bets@ && s.highest_bet_amount as int
                == crate::phase::max_bet(b.0.player_bets@)),
            PokerPhase::SecondBetting(b) => (r matches MatchStatePhaseSpecifics::SecondBetting(s)
                && s.player_bet_amounts@ == b.0.player_bets@ && s.highest_bet_amount as int
                == crate::phase::max_bet(b.0.player_bets@)),
            PokerPhase::DrawingDiscarding(p) => (r matches MatchStatePhaseSpecifics::Drawing(dr)
                && dr matches MatchStatePhaseSpecificsDrawing::Discarding(counts)
                && counts.player_discard_count@.len() == p.player_discarded_cards@.len() && (
            forall|i: int|
                0 <= i < p.player_discarded_cards@.len() ==> (
                #[trigger] counts.player_discard_count@[i]).0 == p.player_discarded_cards@[i].0
                    && counts.player_discard_count@[i].1 as int == (match p.player_discarded_cards@[i].1 {
                    None => 0int,
                    Some(d) => d@.len() as int,
                }))),
            PokerPhase::DrawingDealing(_) => (r matches MatchStatePhaseSpecifics::Drawing(dr)
                && dr is Dealing),
            PokerPhase::Showdown(sd) => (r matches MatchStatePhaseSpecifics::Showdown(sp) && (
            sd.results matches Some(res) ==> sp.winning_rank == res.winning_rank
                && sp.winner_ids@ == res.winner_ids@ && sp.pot_distribution@.len()
                == res.pot_distribution@.len())),
            _ => true,
        }),
{
    match phase {
        PokerPhase::Ante(_) => MatchStatePhaseSpecifics::Ante,
        PokerPhase::Dealing(_) => MatchStatePhaseSpecifics::Dealing,
        PokerPhase::FirstBetting(b) => {
            let highest_bet_amount = match b.0.get_highest_bet() {
                Some(h) => h,
                None => 0,
            };
            proof {
                crate::betting::lemma_max_bet_nonneg(b.0.player_bets@);
            }
            MatchStatePhaseSpecifics::FirstBetting(
                MatchStatePhaseSpecificsBetting {
                    highest_bet_amount,
                    player_bet_amounts: b.0.get_player_bet_amounts(),
                },
            )
        },
        PokerPhase::SecondBetting(b) => {
            let highest_bet_amount = match b.0.get_highest_bet() {
                Some(h) => h,
                None => 0,
            };
            proof {
                crate::betting::lemma_max_bet_nonneg(b.0.player_bets@);
            }
            MatchStatePhaseSpecifics::SecondBetting(
                MatchStatePhaseSpecificsBetting {
                    highest_bet_amount,
                    player_bet_amounts: b.0.get_player_bet_amounts(),
                },
            )
        },
        PokerPhase::DrawingDiscarding(p) => {
            let mut player_discard_count: Vec<(u128, u64)> = Vec::new();
            let mut i: usize = 0;
            while i < p.player_discarded_cards.len()
                invariant
                    0 <= i <= p.player_discarded_cards@.len(),
                    player_discard_count@.len() == i,
                    forall|j: int|
                        0 <= j < i ==> (#[trigger] player_discard_count@[j]).0
                            == p.player_discarded_cards@[j].0
                            && player_discard_count@[j].1 as int == (match p.player_discarded_cards@[j].1 {
                            None => 0int,
                            Some(d) => d@.len() as int,
                        }),
                decreases p.player_discarded_cards@.len() - i,
            {
                let count: u64 = match &p.player_discarded_cards[i].1 {
                    None => 0,
                    Some(d) => d.len() as u64,
                };
                player_discard_count.push((p.player_discarded_cards[i].0, count));
                i = i + 1;
            }
            MatchStatePhaseSpecifics::Drawing(
                MatchStatePhaseSpecificsDrawing::Discarding(
                    DrawingStageDiscarding { player_discard_count },
                ),
            )
        },
        PokerPhase::DrawingDealing(_) => MatchStatePhaseSpecifics::Drawing(
            MatchStatePhaseSpecificsDrawing::Dealing,
        ),
        PokerPhase::Showdown(p) => {
            match &p.results {
                Some(res) => MatchStatePhaseSpecifics::Showdown(
                    MatchStatePhaseSpecificsShowdown {
                        winning_rank: res.winning_rank,
                        winner_ids: copy_u128s(&res.winner_ids),
                        pot_distribution: copy_distribution(&res.pot_distribution),
                    },
                ),
                None => MatchStatePhaseSpecifics::Showdown(
                    MatchStatePhaseSpecificsShowdown {
                        winning_rank: crate::hand_rank::HandRank::HighCard,
                        winner_ids: Vec::new(),
                        pot_distribution: Vec::new(),
                    },
                ),
            }
        },
    }
}

impl MatchStatePhaseSpecifics {
    /// The payload one recipient sees: a betting round shows the high bet
    /// and the recipient's own standing bet, zero before they have bet.
    pub fn as_player(&self, player_id: u128) -> (r: MatchStatePhaseSpecificsAsPlayer)
        ensures
            (match *self {
                MatchStatePhaseSpecifics::Ante => r is Ante,
                MatchStatePhaseSpecifics::Dealing => r is Dealing,
                MatchStatePhaseSpecifics::FirstBetting(s) => (
                r matches MatchStatePhaseSpecificsAsPlayer::FirstBetting(v)
                    && v.highest_bet_amount == s.highest_bet_amount && v.self_bet_amount as int
                    == crate::kv::al_get_or_zero(s.player_bet_amounts@, player_id)),
                MatchStatePhaseSpecifics::SecondBetting(s) => (
                r matches MatchStatePhaseSpecificsAsPlayer::SecondBetting(v)
                    && v.highest_bet_amount == s.highest_bet_amount && v.self_bet_amount as int
                    == crate::kv::al_get_or_zero(s.player_bet_amounts@, player_id)),
                MatchStatePhaseSpecifics::Drawing(d) => (
                r matches MatchStatePhaseSpecificsAsPlayer::Drawing(v) && (match (d, v) {
                    (
                        MatchStatePhaseSpecificsDrawing::Discarding(c0),
                        MatchStatePhaseSpecificsDrawing::Discarding(c1),
                    ) => c1.player_discard_count@ == c0.player_discard_count@,
                    (
                        MatchStatePhaseSpecificsDrawing::Dealing,
                        MatchStatePhaseSpecificsDrawing::Dealing,
                    ) => true,
                    _ => false,
                })),
                MatchStatePhaseSpecifics::Showdown(sp) => (
                r matches MatchStatePhaseSpecificsAsPlayer::Showdown(v) && v.winning_rank
                    == sp.winning_rank && v.winner_ids@ == sp.winner_ids@
                    && v.pot_distribution@.len() == sp.pot_distribution@.len()),
            }),
    {
        match self {
            MatchStatePhaseSpecifics::Ante => MatchStatePhaseSpecificsAsPlayer::Ante,
            MatchStatePhaseSpecifics::Dealing => MatchStatePhaseSpecificsAsPlayer::Dealing,
            MatchStatePhaseSpecifics::FirstBetting(s) => {
                MatchStatePhaseSpecificsAsPlayer::FirstBetting(betting_view(s, player_id))
            },
            MatchStatePhaseSpecifics::SecondBetting(s) => {
                MatchStatePhaseSpecificsAsPlayer::SecondBetting(betting_view(s, player_id))
            },
            MatchStatePhaseSpecifics::Drawing(d) => MatchStatePhaseSpecificsAsPlayer::Drawing(
                match d {
                    MatchStatePhaseSpecificsDrawing::Discarding(counts) => {
                        MatchStatePhaseSpecificsDrawing::Discarding(
                            DrawingStageDiscarding {
                                player_discard_count: copy_counts(&counts.player_discard_count),
                            },
                        )
                    },
                    MatchStatePhaseSpecificsDrawing::Dealing => {
                        MatchStatePhaseSpecificsDrawing::Dealing
                    },
                },
            ),
            MatchStatePhaseSpecifics::Showdown(s) => MatchStatePhaseSpecificsAsPlayer::Showdown(
                MatchStatePhaseSpecificsShowdown {
                    winning_rank: s.winning_rank,
                    winner_ids: copy_u128s(&s.winner_ids),
                    pot_distribution: copy_distribution(&s.pot_distribution),
                },
            ),
        }
    }
}

fn betting_view(s: &MatchStatePhaseSpecificsBetting, player_id: u128) -> (r:
    MatchStatePhaseSpecificsBettingAsPlayer)
    ensures
        r.highest_bet_amount == s.highest_bet_amount,
        r.self_bet_amount as int == crate::kv::al_get_or_zero(s.player_bet_amounts@, player_id),
{
    let self_bet_amount = match first_value(&s.player_bet_amounts, player_id) {
        Some(v) => v,
        None => 0,
    };
    MatchStatePhaseSpecificsBettingAsPlayer {
        highest_bet_amount: s.highest_bet_amount,
        self_bet_amount,
    }
}

/// The value at the first occurrence of the key.
fn first_value(m: &Vec<(u128, u64)>, k: u128) -> (r: Option<u64>)
    ensures
        r == crate::kv::al_get(m@, k),
{
    proof {
        assert(m@.skip(0) =~= m@);
    }
    let mut i: usize = 0;
    while i < m.len()
        invariant
            0 <= i <= m@.len(),
            forall|j: int| 0 <= j < i ==> (#[trigger] m@[j]).0 != k,
            crate::kv::al_get(m@, k) == crate::kv::al_get(m@.skip(i as int), k),
        decreases m@.len() - i,
    {
        if m[i].0 == k {
            proof {
                assert(m@.skip(i as int)[0] == m@[i as int]);
            }
            return Some(m[i].1);
        }
        proof {
            assert(m@.skip(i as int).drop_first() =~= m@.skip(i + 1));
            assert(m@.skip(i as int)[0] == m@[i as int]);
        }
        i = i + 1;
    }
    proof {
        assert(m@.skip(m@.len() as int) =~= Seq::<(u128, u64)>::empty());
    }
    None
}

fn copy_u128s(v: &Vec<u128>) -> (out: Vec<u128>)
    ensures
        out@ == v@,
{
    let mut out: Vec<u128> = Vec::new();
    let mut i: usize = 0;
    while i < v.len()
        invariant
            0 <= i <= v@.len(),
            out@ == v@.take(i as int),
        decreases v@.len() - i,
    {
        out.push(v[i]);
        proof {
            assert(v@.take(i + 1) =~= v@.take(i as int).push(v@[i as int]));
        }
        i = i + 1;
    }
    proof {
        assert(v@.take(v@.len() as int) =~= v@);
    }
    out
}

fn copy_counts(v: &Vec<(u128, u64)>) -> (out: Vec<(u128, u64)>)
    ensures
        out@ == v@,
{
    let mut out: Vec<(u128, u64)> = Vec::new();
    let mut i: usize = 0;
    while i < v.len()
        invariant
            0 <= i <= v@.len(),
            out@ == v@.take(i as int),
        decreases v@.len() - i,
    {
        out.push(v[i]);
        proof {
            assert(v@.take(i + 1) =~= v@.take(i as int).push(v@[i as int]));
        }
        i = i + 1;
    }
    proof {
        assert(v@.take(v@.len() as int) =~= v@);
    }
    out
}

fn copy_distribution(v: &Vec<(u128, crate::phase::ShowdownPotDistribution)>) -> (out: Vec<
    (u128, crate::phase::ShowdownPotDistribution),
>)
    ensures
        out@.len() == v@.len(),
        forall|i: int|
            0 <= i < v@.len() ==> (#[trigger] out@[i]).0 == v@[i].0 && out@[i].1.pot_id
                == v@[i].1.pot_id && out@[i].1.total_credits == v@[i].1.total_credits
                && out@[i].1.credits_per_winner == v@[i].1.credits_per_winner
                && out@[i].1.player_ids@ == v@[i].1.player_ids@,
{
    let mut out: Vec<(u128, crate::phase::ShowdownPotDistribution)> = Vec::new();
    let mut i: usize = 0;
    while i < v.len()
        invariant
            0 <= i <= v@.len(),
            out@.len() == i,
            forall|j: int|
                0 <= j < i ==> (#[trigger] out@[j]).0 == v@[j].0 && out@[j].1.pot_id
                    == v@[j].1.pot_id && out@[j].1.total_credits == v@[j].1.total_credits
                    && out@[j].1.credits_per_winner == v@[j].1.credits_per_winner
                    && out@[j].1.player_ids@ == v@[j].1.player_ids@,
        decreases v@.len() - i,
    {
        let entry = &v[i];
        let dist = crate::phase::ShowdownPotDistribution {
            pot_id: entry.1.pot_id,
            player_ids: copy_u128s(&entry.1.player_ids),
            total_credits: entry.1.total_credits,
            credits_per_winner: entry.1.credits_per_winner,
        };
        out.push((entry.0, dist));
        i = i + 1;
    }
    out
}

} // verus!
