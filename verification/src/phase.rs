//! Per-phase match state and the model shared by all phases.
//!
//! The phases of a hand run `Ante`, `Dealing`, `FirstBetting`,
//! `DrawingDiscarding`, `DrawingDealing`, `SecondBetting`, `Showdown`, with a
//! short-circuit to the showdown when only one hand is left. Every phase
//! upholds the deck-closure law: each of the 52 cards sits in exactly one
//! place — the draw pile, the discard pile, or a live card slot of a hand.
use vstd::multiset::Multiset;
use vstd::prelude::*;

use crate::card::Card;
use crate::deck::{CardDeck, full_deck};
use crate::error::AppError;
use crate::hand::Hand;
use crate::kv::{al_get, al_contains, keys_unique};
use crate::table::GameTable;

verus! {

/// The cards of `cards` that are not listed in `d`, in order.
pub open spec fn kept_cards(cards: Seq<Card>, d: Seq<Card>) -> Seq<Card>
    decreases cards.len(),
{
    if cards.len() == 0 {
        Seq::empty()
    } else {
        let rest = kept_cards(cards.drop_last(), d);
        if d.contains(cards.last()) {
            rest
        } else {
            rest.push(cards.last())
        }
    }
}

/// The live cards a hand still owns: all of them, unless the player has
/// declared discards that await replacement.
pub open spec fn eff_of(hand: Hand, decl: Option<Option<Vec<Card>>>) -> Multiset<Card> {
    match decl {
        Some(Some(d)) => kept_cards(hand.cards@, d@).to_multiset(),
        _ => hand.cards@.to_multiset(),
    }
}

/// All live cards across the hands, net of pending discards.
pub open spec fn live_eff(
    hands: Seq<(u128, Hand)>,
    decls: Seq<(u128, Option<Vec<Card>>)>,
) -> Multiset<Card>
    decreases hands.len(),
{
    if hands.len() == 0 {
        Multiset::empty()
    } else {
        live_eff(hands.drop_last(), decls).add(
            eff_of(hands.last().1, al_get(decls, hands.last().0)),
        )
    }
}

/// The deck-closure law: draw pile, discard pile and live hand cards
/// together hold each of the 52 cards exactly once.
pub open spec fn cards_conserved(
    deck: CardDeck,
    hands: Seq<(u128, Hand)>,
    decls: Seq<(u128, Option<Vec<Card>>)>,
) -> bool {
    deck.deck_view().to_multiset().add(deck.discards().to_multiset()).add(live_eff(hands, decls))
        == full_deck().to_multiset()
}

/// The empty declaration map, used by the phases without pending discards.
pub open spec fn no_decls() -> Seq<(u128, Option<Vec<Card>>)> {
    Seq::empty()
}

/// Taking a hand out takes exactly its live cards out.
pub proof fn lemma_live_eff_remove(
    hands: Seq<(u128, Hand)>,
    decls: Seq<(u128, Option<Vec<Card>>)>,
    i: int,
)
    requires
        0 <= i < hands.len(),
    ensures
        live_eff(hands.remove(i), decls).add(eff_of(hands[i].1, al_get(decls, hands[i].0)))
            == live_eff(hands, decls),
    decreases hands.len(),
{
    broadcast use vstd::multiset::group_multiset_axioms;

    if i == hands.len() - 1 {
        assert(hands.remove(i) =~= hands.drop_last());
    } else {
        assert(hands.remove(i).drop_last() =~= hands.drop_last().remove(i));
        assert(hands.remove(i).last() == hands.last());
        assert(hands.drop_last()[i] == hands[i]);
        lemma_live_eff_remove(hands.drop_last(), decls, i);
        assert(live_eff(hands.remove(i), decls).add(
            eff_of(hands[i].1, al_get(decls, hands[i].0)),
        ) =~= live_eff(hands, decls));
    }
}

/// Adding a hand adds exactly its live cards.
pub proof fn lemma_live_eff_push(
    hands: Seq<(u128, Hand)>,
    decls: Seq<(u128, Option<Vec<Card>>)>,
    pair: (u128, Hand),
)
    ensures
        live_eff(hands.push(pair), decls) == live_eff(hands, decls).add(
            eff_of(pair.1, al_get(decls, pair.0)),
        ),
{
    assert(hands.push(pair).drop_last() =~= hands);
    assert(hands.push(pair).last() == pair);
}

/// Replacing a hand swaps exactly its live cards.
pub proof fn lemma_live_eff_update(
    hands: Seq<(u128, Hand)>,
    decls: Seq<(u128, Option<Vec<Card>>)>,
    i: int,
    pair: (u128, Hand),
)
    requires
        0 <= i < hands.len(),
    ensures
        live_eff(hands.update(i, pair), decls).add(eff_of(hands[i].1, al_get(decls, hands[i].0)))
            == live_eff(hands, decls).add(eff_of(pair.1, al_get(decls, pair.0))),
    decreases hands.len(),
{
    broadcast use vstd::multiset::group_multiset_axioms;

    let h2 = hands.update(i, pair);
    if i == hands.len() - 1 {
        assert(h2.drop_last() =~= hands.drop_last());
        assert(h2.last() == pair);
    } else {
        assert(h2.drop_last() =~= hands.drop_last().update(i, pair));
        assert(h2.last() == hands.last());
        assert(hands.drop_last()[i] == hands[i]);
        lemma_live_eff_update(hands.drop_last(), decls, i, pair);
        let ei = eff_of(hands[i].1, al_get(decls, hands[i].0));
        let ep = eff_of(pair.1, al_get(decls, pair.0));
        let el = eff_of(hands.last().1, al_get(decls, hands.last().0));
        assert(live_eff(h2, decls).add(ei) =~= (live_eff(h2.drop_last(), decls).add(ei)).add(el));
        assert(live_eff(hands, decls).add(ep) =~= (live_eff(hands.drop_last(), decls).add(
            ep,
        )).add(el));
    }
}

/// Declarations of absent players do not change the live cards.
pub proof fn lemma_live_eff_decls_absent(
    hands: Seq<(u128, Hand)>,
    decls1: Seq<(u128, Option<Vec<Card>>)>,
    decls2: Seq<(u128, Option<Vec<Card>>)>,
    p: u128,
)
    requires
        !al_contains(hands, p),
        forall|q: u128| q != p ==> al_get(decls2, q) == al_get(decls1, q),
    ensures
        live_eff(hands, decls2) == live_eff(hands, decls1),
    decreases hands.len(),
{
    if hands.len() > 0 {
        assert(!al_contains(hands.drop_last(), p)) by {
            if al_contains(hands.drop_last(), p) {
                let j = choose|j: int|
                    0 <= j < hands.drop_last().len() && (#[trigger] hands.drop_last()[j]).0 == p;
                assert(hands[j].0 == p);
            }
        }
        lemma_live_eff_decls_absent(hands.drop_last(), decls1, decls2, p);
        assert(hands.last().0 != p) by {
            if hands.last().0 == p {
                assert(hands[hands.len() - 1].0 == p);
            }
        }
    }
}

/// Changing one player's declaration swaps exactly that player's live
/// cards.
pub proof fn lemma_live_eff_set_decl(
    hands: Seq<(u128, Hand)>,
    decls1: Seq<(u128, Option<Vec<Card>>)>,
    decls2: Seq<(u128, Option<Vec<Card>>)>,
    i: int,
)
    requires
        keys_unique(hands),
        0 <= i < hands.len(),
        forall|q: u128| q != hands[i].0 ==> al_get(decls2, q) == al_get(decls1, q),
    ensures
        live_eff(hands, decls2).add(eff_of(hands[i].1, al_get(decls1, hands[i].0))) == live_eff(
            hands,
            decls1,
        ).add(eff_of(hands[i].1, al_get(decls2, hands[i].0))),
    decreases hands.len(),
{
    broadcast use vstd::multiset::group_multiset_axioms;

    let p = hands[i].0;
    if i == hands.len() - 1 {
        assert(!al_contains(hands.drop_last(), p)) by {
            if al_contains(hands.drop_last(), p) {
                let j = choose|j: int|
                    0 <= j < hands.drop_last().len() && (#[trigger] hands.drop_last()[j]).0 == p;
                assert(hands[j].0 == p && j < i);
            }
        }
        lemma_live_eff_decls_absent(hands.drop_last(), decls1, decls2, p);
        assert(live_eff(hands, decls2).add(eff_of(hands[i].1, al_get(decls1, p))) =~= live_eff(
            hands,
            decls1,
        ).add(eff_of(hands[i].1, al_get(decls2, p))));
    } else {
        assert(hands.drop_last()[i] == hands[i]);
        assert(crate::kv::keys_unique(hands.drop_last())) by {
            assert(forall|a: int, b: int|
                0 <= a < b < hands.drop_last().len() ==> (#[trigger] hands.drop_last()[a]).0 != (
                #[trigger] hands.drop_last()[b]).0) by {
                assert(forall|a: int, b: int|
                    0 <= a < b < hands.drop_last().len() ==> hands.drop_last()[a] == hands[a]
                        && hands.drop_last()[b] == hands[b]);
            }
        }
        lemma_live_eff_set_decl(hands.drop_last(), decls1, decls2, i);
        assert(hands.last().0 != p) by {
            if hands.last().0 == p {
                assert(hands[hands.len() - 1].0 == p);
            }
        }
        let e1 = eff_of(hands[i].1, al_get(decls1, p));
        let e2 = eff_of(hands[i].1, al_get(decls2, p));
        let el = eff_of(hands.last().1, al_get(decls1, hands.last().0));
        assert(al_get(decls2, hands.last().0) == al_get(decls1, hands.last().0));
        assert(live_eff(hands, decls2).add(e1) =~= (live_eff(hands.drop_last(), decls2).add(
            e1,
        )).add(el));
        assert(live_eff(hands, decls1).add(e2) =~= (live_eff(hands.drop_last(), decls1).add(
            e2,
        )).add(el));
    }
}

/// Rotating the queue moves the front player to the back; the members are
/// kept, only their order changes.
pub fn shift_queue(queue: &mut Vec<u128>) -> (r: Result<u128, AppError>)
    ensures
        old(queue)@.len() == 0 ==> r is Err && final(queue)@ == old(queue)@,
        old(queue)@.len() > 0 ==> r == Ok::<u128, AppError>(old(queue)@[0]) && final(queue)@
            == old(queue)@.drop_first().push(old(queue)@[0]),
        final(queue)@.to_multiset() == old(queue)@.to_multiset(),
{
    broadcast use vstd::seq_lib::group_to_multiset_ensures;

    if queue.len() == 0 {
        return Err(AppError::internal("Can't shift an empty queue!"));
    }
    let active_player = queue.remove(0);
    queue.push(active_player);
    proof {
        assert(old(queue)@.remove(0) =~= old(queue)@.drop_first());
        assert(final(queue)@ =~= old(queue)@.drop_first().push(old(queue)@[0]));
        lemma_rotate_multiset(old(queue)@);
    }
    Ok(active_player)
}

/// Queue rotation preserves multiset membership.
pub proof fn lemma_rotate_multiset(q: Seq<u128>)
    requires
        q.len() > 0,
    ensures
        q.drop_first().push(q[0]).to_multiset() == q.to_multiset(),
{
    broadcast use vstd::seq_lib::group_to_multiset_ensures;

    assert(q.drop_first().push(q[0]).to_multiset() =~= q.drop_first().to_multiset().insert(q[0]));
    assert(q.remove(0) =~= q.drop_first());
    assert(q.remove(0).to_multiset() =~= q.to_multiset().remove(q[0]));
    assert(q.to_multiset().count(q[0]) > 0);
    assert(q.to_multiset().remove(q[0]).insert(q[0]) =~= q.to_multiset());
}

/// A queue holding the same members as a duplicate-free id list has its
/// length and is itself duplicate-free.
pub proof fn lemma_queue_shape(q: Seq<u128>, ids: Seq<u128>)
    requires
        q.to_multiset() == ids.to_multiset(),
        crate::table::ids_unique(ids),
    ensures
        q.len() == ids.len(),
        q.no_duplicates(),
{
    broadcast use vstd::seq_lib::group_to_multiset_ensures;

    assert(q.to_multiset().len() == q.len());
    assert(ids.to_multiset().len() == ids.len());
    assert(ids.no_duplicates());
    ids.lemma_multiset_has_no_duplicates();
    assert forall|c: u128| #[trigger] q.to_multiset().count(c) <= 1 by {
        assert(ids.to_multiset().count(c) <= 1);
    }
    q.lemma_multiset_has_no_duplicates_conv();
}

/// A betting-round action as a player submits it; bet and raise carry the
/// target total for the round, not the increment.
#[derive(Clone, Copy, PartialEq, Eq, Structural, Debug)]
pub enum BettingRoundAction {
    Bet(u64),
    Call,
    Raise(u64),
    Fold,
}

/// Every code names a card.
pub open spec fn codes_all_valid(codes: Seq<String>) -> bool {
    forall|i: int|
        0 <= i < codes.len() ==> crate::card::spec_parse_card(#[trigger] codes[i]@) is Ok
}

/// The cards the first `k` codes name, each card kept once at its first
/// occurrence: the codes are read as a set.
pub open spec fn distinct_parsed(codes: Seq<String>, k: int) -> Seq<Card>
    decreases k,
{
    if k <= 0 {
        Seq::empty()
    } else {
        let prev = distinct_parsed(codes, k - 1);
        let c = crate::card::spec_parse_card(codes[k - 1]@)->Ok_0;
        if prev.contains(c) {
            prev
        } else {
            prev.push(c)
        }
    }
}

/// The cards a player chose to discard: a duplicate-free selection.
#[derive(Clone, Debug)]
pub struct DiscardedCards(pub Vec<Card>);

impl DiscardedCards {
    /// No card listed twice.
    pub open spec fn wf(self) -> bool {
        self.0@.no_duplicates()
    }

    /// Reads a wire-side discard selection: a list of card codes, taken as
    /// a set. An empty list means the player keeps every card; a repeated
    /// code names its card once; a malformed code is rejected.
    pub fn try_from_proto(discarded_cards: &Vec<String>) -> (r: Result<
        Option<DiscardedCards>,
        AppError,
    >)
        ensures
            discarded_cards@.len() == 0 ==> (r matches Ok(o) && o is None),
            // accepted exactly when every code parses
            r is Ok <==> (discarded_cards@.len() == 0 || codes_all_valid(discarded_cards@)),
            // the result holds the distinct cards the codes name, in first
            // appearance order
            r matches Ok(Some(d)) ==> d.wf() && d.0@ == distinct_parsed(
                discarded_cards@,
                discarded_cards@.len() as int,
            ),
            r matches Err(e) ==> e is InvalidRequest,
    {
        if discarded_cards.len() == 0 {
            return Ok(None);
        }
        let mut cards: Vec<Card> = Vec::new();
        let mut i: usize = 0;
        while i < discarded_cards.len()
            invariant
                discarded_cards@.len() > 0,
                0 <= i <= discarded_cards@.len(),
                cards@.no_duplicates(),
                cards@ == distinct_parsed(discarded_cards@, i as int),
                forall|j: int|
                    0 <= j < i ==> crate::card::spec_parse_card(
                        #[trigger] discarded_cards@[j]@,
                    ) is Ok,
            decreases discarded_cards@.len() - i,
        {
            let card = match Card::try_from(discarded_cards[i].as_str()) {
                Ok(c) => c,
                Err(_) => {
                    proof {
                        assert(!codes_all_valid(discarded_cards@));
                    }
                    return Err(AppError::invalid_request("Invalid card representation!"));
                },
            };
            // a repeated code collapses into the set
            let mut seen = false;
            let mut j: usize = 0;
            while j < cards.len()
                invariant
                    0 <= j <= cards@.len(),
                    seen <==> (exists|l: int| 0 <= l < j && #[trigger] cards@[l] == card),
                decreases cards@.len() - j,
            {
                if cards[j] == card {
                    seen = true;
                }
                j = j + 1;
            }
            proof {
                vstd::seq_lib::lemma_seq_contains_after_push(cards@, card, card);
                if seen {
                    let l = choose|l: int| 0 <= l < cards@.len() && #[trigger] cards@[l] == card;
                }
            }
            if !seen {
                let gcards0 = Ghost(cards@);
                cards.push(card);
                proof {
                    assert forall|a: int, b: int|
                        0 <= a < cards@.len() && 0 <= b < cards@.len() && a
                            != b implies cards@[a] != cards@[b] by {
                        if a < cards@.len() - 1 && b < cards@.len() - 1 {
                            assert(cards@[a] == gcards0@[a]);
                            assert(cards@[b] == gcards0@[b]);
                        } else {
                            let other = if a < cards@.len() - 1 {
                                a
                            } else {
                                b
                            };
                            assert(cards@[other] == gcards0@[other]);
                            assert(gcards0@.contains(gcards0@[other]) || other >= gcards0@.len());
                        }
                    }
                }
            }
            i = i + 1;
        }
        proof {
            assert(codes_all_valid(discarded_cards@));
        }
        Ok(Some(DiscardedCards(cards)))
    }
}

/// What the driver should await before the next step: a fixed pacing delay,
/// or a player event with a deadline after which the stalled player is
/// timed out.
#[derive(Clone, Copy, PartialEq, Eq, Structural, Debug)]
pub enum ActionProgression {
    /// Wait the given number of milliseconds.
    Delay(u64),
    /// Wait for a player event, at most the given number of milliseconds;
    /// on the deadline the named player is timed out.
    Event(u64, u128),
}

impl ActionProgression {
    pub fn delay(ms: u64) -> (p: ActionProgression)
        ensures
            p == ActionProgression::Delay(ms),
    {
        ActionProgression::Delay(ms)
    }

    pub fn event(max_ms: u64, timeout_player: u128) -> (p: ActionProgression)
        ensures
            p == ActionProgression::Event(max_ms, timeout_player),
    {
        ActionProgression::Event(max_ms, timeout_player)
    }
}

/// State for the ante phase: each player in turn posts the forced bet.
#[derive(Clone, Debug)]
pub struct PokerPhaseAnte {
    pub game_table: GameTable,
    pub card_deck: CardDeck,
    pub phase_player_queue: Vec<u128>,
    pub ante_amount: u64,
}

/// State for the dealing phase: each player in turn receives five cards.
#[derive(Clone, Debug)]
pub struct PokerPhaseDealing {
    pub game_table: GameTable,
    pub card_deck: CardDeck,
    pub phase_player_queue: Vec<u128>,
    pub ante_amount: u64,
    /// Hands dealt so far, keyed by player; folded hands are absent.
    pub player_hands: Vec<(u128, Hand)>,
}

/// Shared state of the two betting rounds.
#[derive(Clone, Debug)]
pub struct PokerPhaseBetting {
    pub game_table: GameTable,
    pub card_deck: CardDeck,
    pub phase_player_queue: Vec<u128>,
    /// Live hands; folded hands are removed.
    pub player_hands: Vec<(u128, Hand)>,
    /// Each live player's total bet for the round so far.
    pub player_bets: Vec<(u128, u64)>,
    /// Set until a full action round has passed.
    pub first_round_action: bool,
}

#[derive(Clone, Debug)]
pub struct PokerPhaseFirstBetting(pub PokerPhaseBetting);

#[derive(Clone, Debug)]
pub struct PokerPhaseSecondBetting(pub PokerPhaseBetting);

/// State while players declare their discards, in any order.
#[derive(Clone, Debug)]
pub struct PokerPhaseDrawingDiscarding {
    pub game_table: GameTable,
    pub card_deck: CardDeck,
    pub phase_player_queue: Vec<u128>,
    pub player_bets: Vec<(u128, u64)>,
    pub player_hands: Vec<(u128, Hand)>,
    /// Who has decided: present with `None` for "keep all", or with the
    /// declared cards, which sit in the discard pile awaiting replacement.
    pub player_discarded_cards: Vec<(u128, Option<Vec<Card>>)>,
}

/// State while declared discards are replaced from the deck, player by
/// player.
#[derive(Clone, Debug)]
pub struct PokerPhaseDrawingDealing {
    pub game_table: GameTable,
    pub card_deck: CardDeck,
    pub phase_player_queue: Vec<u128>,
    pub player_bets: Vec<(u128, u64)>,
    pub player_hands: Vec<(u128, Hand)>,
    /// Entries disappear as each player's hand is replenished.
    pub player_discarded_cards: Vec<(u128, Option<Vec<Card>>)>,
}

/// Every card of the selection sits in the hand.
pub open spec fn selection_in_hand(d: Seq<Card>, h: Hand) -> bool {
    forall|j: int| 0 <= j < d.len() ==> h.cards@.contains(#[trigger] d[j])
}

/// How many of the first `k` slots hold a declared card, i.e. how many
/// replacement cards the first `k` slots consume.
pub open spec fn drawn_before(cards: Seq<Card>, d: Seq<Card>, k: int) -> int
    decreases k,
{
    if k <= 0 {
        0
    } else {
        drawn_before(cards, d, k - 1) + if d.contains(cards[k - 1]) {
            1int
        } else {
            0int
        }
    }
}

/// The first `k` slots after replenishment: a slot keeps its card unless
/// the card was declared, in which case it takes the next card off the top
/// of the deck (the deck's top is its last element).
pub open spec fn replenished_upto(cards: Seq<Card>, d: Seq<Card>, deck: Seq<Card>, k: int) -> Seq<
    Card,
>
    decreases k,
{
    if k <= 0 {
        Seq::empty()
    } else {
        let prev = replenished_upto(cards, d, deck, k - 1);
        if d.contains(cards[k - 1]) {
            prev.push(deck[deck.len() - 1 - drawn_before(cards, d, k - 1)])
        } else {
            prev.push(cards[k - 1])
        }
    }
}

/// Hands listed for known players only, each well formed, at most a
/// table's worth.
pub open spec fn hands_ok(hands: Seq<(u128, Hand)>, ids: Seq<u128>) -> bool {
    &&& keys_unique(hands)
    &&& forall|i: int| 0 <= i < hands.len() ==> (#[trigger] hands[i]).1.wf()
    &&& forall|p: u128| #[trigger] al_contains(hands, p) ==> ids.contains(p)
    &&& hands.len() <= 6
}

impl PokerPhaseAnte {
    pub open spec fn main_contribs(self) -> Seq<(u128, u64)> {
        self.game_table.credit_pots@[0].1.player_credits@
    }

    /// How many players have posted their ante.
    pub open spec fn paid_count(self) -> int {
        self.main_contribs().len() as int
    }

    pub open spec fn wf(self) -> bool {
        let n = self.phase_player_queue@.len() as int;
        &&& self.game_table.wf()
        &&& self.game_table.pots_wf()
        &&& self.game_table.players_wf()
        &&& self.phase_player_queue@.to_multiset() == self.game_table.player_ids@.to_multiset()
        &&& self.card_deck.deck_view().to_multiset() == full_deck().to_multiset()
        &&& self.card_deck.discards().len() == 0
        &&& 0 <= self.paid_count() <= n
        // the queue is rotated so that exactly the players still to pay
        // stand at its front, in order
        &&& forall|i: int|
            0 <= i < n - self.paid_count() ==> !al_contains(
                self.main_contribs(),
                #[trigger] self.phase_player_queue@[i],
            )
        &&& forall|i: int|
            n - self.paid_count() <= i < n ==> al_contains(
                self.main_contribs(),
                #[trigger] self.phase_player_queue@[i],
            )
        &&& forall|p: u128|
            #[trigger] al_contains(self.main_contribs(), p) ==> self.game_table.player_ids@.contains(
                p,
            )
        // everyone still to pay can afford the ante
        &&& forall|i: int|
            0 <= i < n - self.paid_count() ==> self.game_table.remaining_of(
                #[trigger] self.phase_player_queue@[i],
            ) >= self.ante_amount
    }

    /// Complete when every player has contributed to the main pot.
    pub open spec fn complete(self) -> bool {
        self.paid_count() == self.phase_player_queue@.len()
    }
}

impl PokerPhaseDealing {
    pub open spec fn wf(self) -> bool {
        let n = self.phase_player_queue@.len() as int;
        &&& self.game_table.wf()
        &&& self.game_table.pots_wf()
        &&& self.game_table.players_wf()
        &&& self.phase_player_queue@.to_multiset() == self.game_table.player_ids@.to_multiset()
        &&& hands_ok(self.player_hands@, self.game_table.player_ids@)
        &&& cards_conserved(self.card_deck, self.player_hands@, no_decls())
        &&& self.card_deck.discards().len() == 0
        &&& self.player_hands@.len() <= n
        // the players without a hand stand at the front of the queue
        &&& forall|i: int|
            0 <= i < n - self.player_hands@.len() ==> !al_contains(
                self.player_hands@,
                #[trigger] self.phase_player_queue@[i],
            )
        &&& forall|i: int|
            n - self.player_hands@.len() <= i < n ==> al_contains(
                self.player_hands@,
                #[trigger] self.phase_player_queue@[i],
            )
    }

    /// Complete when every player holds a hand.
    pub open spec fn complete(self) -> bool {
        self.player_hands@.len() == self.phase_player_queue@.len()
    }
}

/// No recorded bet exceeds its player's starting credits.
pub open spec fn bets_within(bets: Seq<(u128, u64)>, table: GameTable) -> bool {
    forall|i: int|
        0 <= i < bets.len() ==> (#[trigger] bets[i]).1 as int <= table.starting_of(bets[i].0)
}

/// Largest bet placed so far; zero on an empty map.
pub open spec fn max_bet(bets: Seq<(u128, u64)>) -> int
    decreases bets.len(),
{
    if bets.len() == 0 {
        0
    } else {
        let m = max_bet(bets.drop_last());
        if bets.last().1 > m {
            bets.last().1 as int
        } else {
            m
        }
    }
}

/// The player's bet stands and matches the round's highest.
pub open spec fn bet_matches_high(bets: Seq<(u128, u64)>, p: u128) -> bool {
    match al_get(bets, p) {
        Some(b) => b as int == max_bet(bets),
        None => false,
    }
}

impl PokerPhaseBetting {
    pub open spec fn wf(self) -> bool {
        &&& self.game_table.wf()
        &&& self.game_table.pots_wf()
        &&& self.game_table.players_wf()
        &&& self.phase_player_queue@.to_multiset() == self.game_table.player_ids@.to_multiset()
        &&& hands_ok(self.player_hands@, self.game_table.player_ids@)
        &&& keys_unique(self.player_bets@)
        &&& forall|p: u128|
            #[trigger] al_contains(self.player_bets@, p) ==> al_contains(self.player_hands@, p)
        &&& bets_within(self.player_bets@, self.game_table)
        &&& cards_conserved(self.card_deck, self.player_hands@, no_decls())
    }

    pub open spec fn bet_of(self, p: u128) -> int {
        crate::kv::al_get_or_zero(self.player_bets@, p)
    }

    /// One live hand left: the round is over.
    pub open spec fn last_man_standing_spec(self) -> bool {
        self.player_hands@.len() == 1
    }

    /// Whether a bet of `target` by `p` is accepted: not below the current
    /// high bet, within the player's starting credits, and coverable by
    /// their balance.
    pub open spec fn set_bet_ok(self, p: u128, target: u64) -> bool {
        &&& (self.player_bets@.len() == 0 || target as int >= max_bet(self.player_bets@))
        &&& target as int <= self.game_table.starting_of(p)
        &&& target as int - self.bet_of(p) <= self.game_table.remaining_of(p)
    }

    /// Complete when one hand is left, or when a full round has passed and
    /// every live player's bet stands at the high bet.
    pub open spec fn complete(self) -> bool {
        self.last_man_standing_spec() || (self.player_bets@.len() > 0 && !self.first_round_action
            && forall|i: int|
            0 <= i < self.player_hands@.len() ==> bet_matches_high(
                self.player_bets@,
                (#[trigger] self.player_hands@[i]).0,
            ))
    }
}

impl PokerPhaseDrawingDiscarding {
    pub open spec fn wf(self) -> bool {
        &&& self.game_table.wf()
        &&& self.game_table.pots_wf()
        &&& self.game_table.players_wf()
        &&& self.phase_player_queue@.to_multiset() == self.game_table.player_ids@.to_multiset()
        &&& hands_ok(self.player_hands@, self.game_table.player_ids@)
        &&& keys_unique(self.player_bets@)
        &&& bets_within(self.player_bets@, self.game_table)
        &&& forall|p: u128|
            #[trigger] al_contains(self.player_bets@, p) ==> al_contains(self.player_hands@, p)
        &&& keys_unique(self.player_discarded_cards@)
        &&& decls_ok(self.player_hands@, self.player_discarded_cards@)
        &&& cards_conserved(self.card_deck, self.player_hands@, self.player_discarded_cards@)
    }

    /// Complete when every live player has declared.
    pub open spec fn complete(self) -> bool {
        self.player_discarded_cards@.len() == self.player_hands@.len()
    }
}

impl PokerPhaseDrawingDealing {
    pub open spec fn wf(self) -> bool {
        &&& self.game_table.wf()
        &&& self.game_table.pots_wf()
        &&& self.game_table.players_wf()
        &&& self.phase_player_queue@.to_multiset() == self.game_table.player_ids@.to_multiset()
        &&& hands_ok(self.player_hands@, self.game_table.player_ids@)
        &&& keys_unique(self.player_bets@)
        &&& bets_within(self.player_bets@, self.game_table)
        &&& forall|p: u128|
            #[trigger] al_contains(self.player_bets@, p) ==> al_contains(self.player_hands@, p)
        &&& keys_unique(self.player_discarded_cards@)
        &&& decls_ok(self.player_hands@, self.player_discarded_cards@)
        &&& cards_conserved(self.card_deck, self.player_hands@, self.player_discarded_cards@)
        &&& self.card_deck.discards().len() == 0
    }

    /// Complete when no declaration awaits replacement.
    pub open spec fn complete(self) -> bool {
        self.player_discarded_cards@.len() == 0
    }
}

impl PokerPhaseShowdown {
    pub open spec fn wf(self) -> bool {
        &&& self.game_table.wf()
        &&& self.phase_player_queue@.to_multiset() == self.game_table.player_ids@.to_multiset()
        &&& hands_ok(self.player_hands@, self.game_table.player_ids@)
        &&& cards_conserved(self.card_deck, self.player_hands@, no_decls())
    }

    /// Complete once the single showdown act has run.
    pub open spec fn complete(self) -> bool {
        self.results is Some
    }
}

/// Every declaration belongs to a live player, lists no card twice, and
/// only cards of that player's hand.
pub open spec fn decls_ok(
    hands: Seq<(u128, Hand)>,
    decls: Seq<(u128, Option<Vec<Card>>)>,
) -> bool {
    forall|i: int|
        0 <= i < decls.len() ==> decl_entry_ok(hands, #[trigger] decls[i])
}

pub open spec fn decl_entry_ok(hands: Seq<(u128, Hand)>, e: (u128, Option<Vec<Card>>)) -> bool {
    &&& al_contains(hands, e.0)
    &&& match e.1 {
        None => true,
        Some(d) => {
            &&& d@.no_duplicates()
            &&& match al_get(hands, e.0) {
                Some(h) => forall|j: int| 0 <= j < d@.len() ==> h.cards@.contains(#[trigger] d@[j]),
                None => false,
            }
        },
    }
}

/// How a pot was split at the showdown.
#[derive(Clone, Debug)]
pub struct ShowdownPotDistribution {
    pub pot_id: u128,
    pub player_ids: Vec<u128>,
    pub total_credits: u64,
    pub credits_per_winner: u64,
}

/// The outcome of the showdown, computed once by its single act.
#[derive(Clone, Debug)]
pub struct ShowdownResults {
    pub winning_rank: crate::hand_rank::HandRank,
    pub winner_ids: Vec<u128>,
    pub pot_distribution: Vec<(u128, ShowdownPotDistribution)>,
}

/// State for the showdown: hands are revealed and the pots are paid out.
#[derive(Clone, Debug)]
pub struct PokerPhaseShowdown {
    pub game_table: GameTable,
    pub card_deck: CardDeck,
    pub phase_player_queue: Vec<u128>,
    pub player_hands: Vec<(u128, Hand)>,
    /// Present once the showdown act has run.
    pub results: Option<ShowdownResults>,
}

} // verus!
