//! Seating, pots and per-player credit accounting for one match.
//!
//! The table upholds the conservation law: at every instant the credits in
//! the pots plus the credits remaining with the players equal the credits
//! the players started with.
use vstd::prelude::*;

use crate::error::AppError;
use crate::kv::{
    al_contains, al_get, al_get_or_zero, al_get_u64, al_find, al_set_u64, keys_unique, sum_vals,
    sum_ints, lemma_al_get_at, lemma_al_get_some, lemma_al_get_update, lemma_sum_ints_update,
    lemma_sum_ints_push, lemma_sum_ints_nonneg, lemma_sum_ints_elem_le, lemma_sum_push,
    lemma_get_le_sum, lemma_sum_nonneg,
};
use crate::player::{Player, fresh_id};

verus! {

pub open spec fn ids_unique(s: Seq<u128>) -> bool {
    forall|i: int, j: int| 0 <= i < j < s.len() ==> s[i] != s[j]
}

/// A pot of bet credits and who contributed what.
#[derive(Clone, Debug)]
pub struct CreditPot {
    pub pot_id: u128,
    pub is_main_pot: bool,
    pub total_credits: u64,
    /// Contribution of each player, keyed by player id.
    pub player_credits: Vec<(u128, u64)>,
}

impl CreditPot {
    /// The total is exactly the sum of the contributions.
    pub open spec fn wf(self) -> bool {
        &&& keys_unique(self.player_credits@)
        &&& self.total_credits as int == sum_vals(self.player_credits@)
    }

    pub fn new(is_main_pot: bool) -> (p: CreditPot)
        ensures
            p.wf(),
            p.is_main_pot == is_main_pot,
            p.total_credits == 0,
            p.player_credits@.len() == 0,
    {
        CreditPot { pot_id: fresh_id(), is_main_pot, total_credits: 0, player_credits: Vec::new() }
    }

    /// Moves `amount` into the pot, recording it against the player on both
    /// sides. The player's balance must already have been charged.
    pub fn add_credits(&mut self, player_credits: &mut CalculatedPlayerCredits, amount: u64)
        requires
            old(self).wf(),
            keys_unique(old(player_credits).pot_credits@),
            old(self).total_credits + amount <= u64::MAX,
            al_get_or_zero(old(player_credits).pot_credits@, old(self).pot_id) + amount
                <= u64::MAX,
        ensures
            final(self).wf(),
            final(self).pot_id == old(self).pot_id,
            final(self).is_main_pot == old(self).is_main_pot,
            final(self).total_credits == old(self).total_credits + amount,
            forall|p: u128|
                p != old(player_credits).player_id ==> al_get(final(self).player_credits@, p)
                    == al_get(old(self).player_credits@, p),
            al_get_or_zero(final(self).player_credits@, old(player_credits).player_id)
                == al_get_or_zero(old(self).player_credits@, old(player_credits).player_id)
                + amount,
            al_contains(final(self).player_credits@, old(player_credits).player_id),
            forall|p: u128|
                al_contains(final(self).player_credits@, p) <==> (al_contains(
                    old(self).player_credits@,
                    p,
                ) || p == old(player_credits).player_id),
            !al_contains(old(self).player_credits@, old(player_credits).player_id) ==> final(self).player_credits@.len() == old(self).player_credits@.len() + 1,
            al_contains(old(self).player_credits@, old(player_credits).player_id) ==> final(self).player_credits@.len() == old(self).player_credits@.len(),
            final(player_credits).player_id == old(player_credits).player_id,
            final(player_credits).starting_credits == old(player_credits).starting_credits,
            final(player_credits).remaining_credits == old(player_credits).remaining_credits,
            keys_unique(final(player_credits).pot_credits@),
            sum_vals(final(player_credits).pot_credits@) == sum_vals(
                old(player_credits).pot_credits@,
            ) + amount,
            forall|q: u128|
                q != old(self).pot_id ==> al_get(final(player_credits).pot_credits@, q) == al_get(
                    old(player_credits).pot_credits@,
                    q,
                ),
    {
        let player_id = player_credits.player_id;
        let prev = match al_get_u64(&self.player_credits, player_id) {
            Some(v) => v,
            None => 0,
        };
        proof {
            lemma_get_le_sum(self.player_credits@, player_id);
        }
        al_set_u64(&mut self.player_credits, player_id, prev + amount);
        self.total_credits = self.total_credits + amount;
        let prev_pot = match al_get_u64(&player_credits.pot_credits, self.pot_id) {
            Some(v) => v,
            None => 0,
        };
        al_set_u64(&mut player_credits.pot_credits, self.pot_id, prev_pot + amount);
    }
}

/// A player's balance within one match and how it flowed into the pots.
#[derive(Clone, Debug)]
pub struct CalculatedPlayerCredits {
    pub player_id: u128,
    pub starting_credits: u64,
    pub remaining_credits: u64,
    /// Contribution to each pot, keyed by pot id.
    pub pot_credits: Vec<(u128, u64)>,
}

impl CalculatedPlayerCredits {
    /// What remains plus what went into pots is what the player started with.
    pub open spec fn wf(self) -> bool {
        &&& keys_unique(self.pot_credits@)
        &&& self.remaining_credits as int + sum_vals(self.pot_credits@)
            == self.starting_credits as int
    }

    pub fn new(player_id: u128, starting_credits: u64) -> (c: CalculatedPlayerCredits)
        ensures
            c.wf(),
            c.player_id == player_id,
            c.starting_credits == starting_credits,
            c.remaining_credits == starting_credits,
            c.pot_credits@.len() == 0,
    {
        CalculatedPlayerCredits {
            player_id,
            starting_credits,
            remaining_credits: starting_credits,
            pot_credits: Vec::new(),
        }
    }

    pub fn get_starting_credits(&self) -> (c: u64)
        ensures
            c == self.starting_credits,
    {
        self.starting_credits
    }

    /// Withdraws `amount` from the balance into the pot; fails, changing
    /// nothing, exactly when the balance cannot cover it.
    pub fn use_credits(&mut self, amount: u64, credit_pot: &mut CreditPot) -> (r: Result<
        (),
        AppError,
    >)
        requires
            old(self).wf(),
            old(credit_pot).wf(),
            old(credit_pot).total_credits + amount <= u64::MAX,
        ensures
            final(self).player_id == old(self).player_id,
            final(self).starting_credits == old(self).starting_credits,
            final(credit_pot).pot_id == old(credit_pot).pot_id,
            final(credit_pot).is_main_pot == old(credit_pot).is_main_pot,
            final(self).wf(),
            final(credit_pot).wf(),
            r is Ok <==> amount <= old(self).remaining_credits,
            r is Err ==> *final(self) == *old(self) && *final(credit_pot) == *old(credit_pot) && (
            r->Err_0 is Internal),
            r is Ok ==> final(self).remaining_credits == old(self).remaining_credits - amount,
            r is Ok ==> final(credit_pot).total_credits == old(credit_pot).total_credits + amount,
            r is Ok ==> forall|p: u128|
                p != old(self).player_id ==> al_get(final(credit_pot).player_credits@, p) == al_get(
                    old(credit_pot).player_credits@,
                    p,
                ),
            r is Ok ==> forall|p: u128|
                al_contains(final(credit_pot).player_credits@, p) <==> (al_contains(
                    old(credit_pot).player_credits@,
                    p,
                ) || p == old(self).player_id),
            r is Ok && !al_contains(old(credit_pot).player_credits@, old(self).player_id) ==> final(credit_pot).player_credits@.len() == old(credit_pot).player_credits@.len() + 1,
            r is Ok && al_contains(old(credit_pot).player_credits@, old(self).player_id) ==> final(credit_pot).player_credits@.len() == old(credit_pot).player_credits@.len(),
    {
        if amount > self.remaining_credits {
            return Err(AppError::internal("Not enough credits!"));
        }
        proof {
            lemma_get_le_sum(self.pot_credits@, credit_pot.pot_id);
        }
        self.remaining_credits = self.remaining_credits - amount;
        credit_pot.add_credits(self, amount);
        Ok(())
    }
}

/// Per-match seating, the pot registry and the credit accounts.
#[derive(Clone, Debug)]
pub struct GameTable {
    pub match_id: u128,
    /// The fixed seating order; index 0 acts first. Phases copy it and
    /// rotate their copy locally.
    pub player_queue_immut: Vec<u128>,
    pub player_ids: Vec<u128>,
    pub dealer_id: u128,
    pub credit_pots: Vec<(u128, CreditPot)>,
    pub player_credits: Vec<(u128, CalculatedPlayerCredits)>,
}

impl GameTable {
    pub open spec fn pot_totals(self) -> Seq<int> {
        self.credit_pots@.map_values(|e: (u128, CreditPot)| e.1.total_credits as int)
    }

    pub open spec fn remainings(self) -> Seq<int> {
        self.player_credits@.map_values(
            |e: (u128, CalculatedPlayerCredits)| e.1.remaining_credits as int,
        )
    }

    pub open spec fn startings(self) -> Seq<int> {
        self.player_credits@.map_values(
            |e: (u128, CalculatedPlayerCredits)| e.1.starting_credits as int,
        )
    }

    /// The conservation law: pot credits plus remaining credits equal the
    /// starting credits, at every instant of the match.
    pub open spec fn credits_conserved(self) -> bool {
        sum_ints(self.pot_totals()) + sum_ints(self.remainings()) == sum_ints(self.startings())
    }

    pub open spec fn wf(self) -> bool {
        &&& keys_unique(self.credit_pots@)
        &&& keys_unique(self.player_credits@)
        &&& forall|i: int|
            0 <= i < self.player_credits@.len() ==> (#[trigger] self.player_credits@[i]).1.player_id
                == self.player_credits@[i].0
        &&& forall|i: int|
            0 <= i < self.credit_pots@.len() ==> (#[trigger] self.credit_pots@[i]).1.pot_id
                == self.credit_pots@[i].0
        &&& ids_unique(self.player_ids@)
        &&& forall|p: u128|
            #[trigger] al_contains(self.player_credits@, p) <==> self.player_ids@.contains(p)
        &&& self.player_queue_immut@.to_multiset() == self.player_ids@.to_multiset()
        // the single main pot of this system: no side pots
        &&& self.credit_pots@.len() == 1
        &&& self.credit_pots@[0].1.is_main_pot
        &&& 1 <= self.player_ids@.len() <= 6
        &&& self.credits_conserved()
        &&& sum_ints(self.startings()) <= u64::MAX
    }

    /// Every balance still accounts for its pot contributions; holds until
    /// the showdown pays winnings out.
    pub open spec fn players_wf(self) -> bool {
        forall|i: int|
            0 <= i < self.player_credits@.len() ==> (#[trigger] self.player_credits@[i]).1.wf()
    }

    /// Every pot's total still matches its contributions; holds until the
    /// showdown pays the pots out.
    pub open spec fn pots_wf(self) -> bool {
        forall|i: int| 0 <= i < self.credit_pots@.len() ==> (#[trigger] self.credit_pots@[i]).1.wf()
    }

    pub open spec fn remaining_of(self, p: u128) -> int {
        match al_get(self.player_credits@, p) {
            Some(c) => c.remaining_credits as int,
            None => 0,
        }
    }

    pub open spec fn starting_of(self, p: u128) -> int {
        match al_get(self.player_credits@, p) {
            Some(c) => c.starting_credits as int,
            None => 0,
        }
    }

    pub open spec fn main_total(self) -> int {
        self.credit_pots@[0].1.total_credits as int
    }

    /// Seats the players with their starting credits and opens the main pot.
    pub fn new(match_id: u128, players: MatchStartPlayers) -> (t: GameTable)
        requires
            players.wf(),
        ensures
            t.wf(),
            t.pots_wf(),
            t.players_wf(),
            t.match_id == match_id,
            t.dealer_id == players.dealer_id,
            t.player_queue_immut@ == players.ordered_player_queue@,
            t.main_total() == 0,
            t.credit_pots@.len() == 1,
            t.credit_pots@[0].1.player_credits@.len() == 0,
            forall|p: u128|
                #[trigger] al_contains(t.player_credits@, p) <==> al_contains(
                    players.player_credits@,
                    p,
                ),
            forall|p: u128| t.remaining_of(p) == al_get_or_zero(players.player_credits@, p),
            forall|p: u128| t.starting_of(p) == al_get_or_zero(players.player_credits@, p),
    {
        let src = &players.player_credits;
        let mut player_ids: Vec<u128> = Vec::new();
        let mut player_credits: Vec<(u128, CalculatedPlayerCredits)> = Vec::new();
        let mut i: usize = 0;
        while i < src.len()
            invariant
                keys_unique(src@),
                0 <= i <= src@.len(),
                player_ids@.len() == i,
                player_credits@.len() == i,
                forall|j: int| 0 <= j < i ==> player_ids@[j] == (#[trigger] src@[j]).0,
                forall|j: int|
                    0 <= j < i ==> (#[trigger] player_credits@[j]).0 == src@[j].0
                        && player_credits@[j].1.player_id == src@[j].0
                        && player_credits@[j].1.starting_credits == src@[j].1
                        && player_credits@[j].1.remaining_credits == src@[j].1
                        && player_credits@[j].1.wf(),
            decreases src@.len() - i,
        {
            let pid = src[i].0;
            let credits = src[i].1;
            player_ids.push(pid);
            player_credits.push((pid, CalculatedPlayerCredits::new(pid, credits)));
            i = i + 1;
        }
        let mut table = GameTable {
            match_id,
            player_queue_immut: players.ordered_player_queue,
            dealer_id: players.dealer_id,
            player_ids,
            credit_pots: Vec::new(),
            player_credits,
        };
        let main_pot = CreditPot::new(true);
        proof {
            assert(!al_contains(table.credit_pots@, main_pot.pot_id));
        }
        table.add_pot(main_pot);
        proof {
            lemma_table_new_wf(table, players, src@);
        }
        table
    }

    pub fn clone_player_queue(&self) -> (q: Vec<u128>)
        ensures
            q@ == self.player_queue_immut@,
    {
        let mut q: Vec<u128> = Vec::new();
        let mut i: usize = 0;
        while i < self.player_queue_immut.len()
            invariant
                0 <= i <= self.player_queue_immut@.len(),
                q@ == self.player_queue_immut@.take(i as int),
            decreases self.player_queue_immut@.len() - i,
        {
            q.push(self.player_queue_immut[i]);
            proof {
                assert(self.player_queue_immut@.take(i + 1) =~= self.player_queue_immut@.take(
                    i as int,
                ).push(self.player_queue_immut@[i as int]));
            }
            i = i + 1;
        }
        proof {
            assert(self.player_queue_immut@.take(self.player_queue_immut@.len() as int)
                =~= self.player_queue_immut@);
        }
        q
    }

    /// Registers a pot under its own id.
    pub fn add_pot(&mut self, pot: CreditPot)
        requires
            !al_contains(old(self).credit_pots@, pot.pot_id),
        ensures
            final(self).credit_pots@ == old(self).credit_pots@.push((pot.pot_id, pot)),
            final(self).match_id == old(self).match_id,
            final(self).player_queue_immut == old(self).player_queue_immut,
            final(self).player_ids == old(self).player_ids,
            final(self).dealer_id == old(self).dealer_id,
            final(self).player_credits == old(self).player_credits,
    {
        self.credit_pots.push((pot.pot_id, pot));
    }

    /// The player's starting credits, if seated.
    pub fn lookup_starting(&self, p: u128) -> (r: Option<u64>)
        requires
            keys_unique(self.player_credits@),
        ensures
            r is Some <==> al_contains(self.player_credits@, p),
            r matches Some(v) ==> v as int == self.starting_of(p),
    {
        match al_find(&self.player_credits, p) {
            Some(i) => {
                proof {
                    lemma_al_get_at(self.player_credits@, p, i as int);
                }
                Some(self.player_credits[i].1.starting_credits)
            },
            None => {
                proof {
                    lemma_al_get_some(self.player_credits@, p);
                }
                None
            },
        }
    }

    /// The player's remaining credits, if seated.
    pub fn lookup_remaining(&self, p: u128) -> (r: Option<u64>)
        requires
            keys_unique(self.player_credits@),
        ensures
            r is Some <==> al_contains(self.player_credits@, p),
            r matches Some(v) ==> v as int == self.remaining_of(p),
    {
        match al_find(&self.player_credits, p) {
            Some(i) => {
                proof {
                    lemma_al_get_at(self.player_credits@, p, i as int);
                }
                Some(self.player_credits[i].1.remaining_credits)
            },
            None => {
                proof {
                    lemma_al_get_some(self.player_credits@, p);
                }
                None
            },
        }
    }

    /// Charges the player `amount` into the main pot; fails, changing
    /// nothing, exactly when their balance cannot cover it.
    pub fn pay_into_main(&mut self, player_id: u128, amount: u64) -> (r: Result<(), AppError>)
        requires
            old(self).wf(),
            old(self).pots_wf(),
            old(self).players_wf(),
            al_contains(old(self).player_credits@, player_id),
        ensures
            final(self).wf(),
            final(self).pots_wf(),
            final(self).players_wf(),
            final(self).match_id == old(self).match_id,
            final(self).dealer_id == old(self).dealer_id,
            final(self).player_queue_immut@ == old(self).player_queue_immut@,
            final(self).player_ids@ == old(self).player_ids@,
            final(self).credit_pots@.len() == old(self).credit_pots@.len(),
            r is Ok <==> amount <= old(self).remaining_of(player_id),
            r is Err ==> *final(self) == *old(self) && (r->Err_0 is Internal),
            r is Ok ==> final(self).remaining_of(player_id) == old(self).remaining_of(player_id)
                - amount,
            r is Ok ==> forall|p: u128|
                p != player_id ==> al_get(final(self).player_credits@, p) == al_get(
                    old(self).player_credits@,
                    p,
                ),
            forall|p: u128| final(self).starting_of(p) == old(self).starting_of(p),
            forall|p: u128|
                #[trigger] al_contains(final(self).player_credits@, p) <==> al_contains(
                    old(self).player_credits@,
                    p,
                ),
            r is Ok ==> final(self).main_total() == old(self).main_total() + amount,
            r is Ok ==> forall|j: int|
                1 <= j < old(self).credit_pots@.len() ==> final(self).credit_pots@[j] == old(self).credit_pots@[j],
            r is Ok ==> forall|q: u128|
                al_contains(final(self).credit_pots@[0].1.player_credits@, q) <==> (al_contains(
                    old(self).credit_pots@[0].1.player_credits@,
                    q,
                ) || q == player_id),
            r is Err ==> final(self).credit_pots@[0].1.player_credits@ == old(self).credit_pots@[0].1.player_credits@,
            r is Ok && !al_contains(old(self).credit_pots@[0].1.player_credits@, player_id)
                ==> final(self).credit_pots@[0].1.player_credits@.len() == old(self).credit_pots@[0].1.player_credits@.len() + 1,
            r is Ok && al_contains(old(self).credit_pots@[0].1.player_credits@, player_id)
                ==> final(self).credit_pots@[0].1.player_credits@.len() == old(self).credit_pots@[0].1.player_credits@.len(),
    {
        let gt0 = Ghost(*self);
        let i = match al_find(&self.player_credits, player_id) {
            Some(i) => i,
            None => {
                proof {
                    assert(false);
                }
                return Err(AppError::internal("Unknown player!"));
            },
        };
        proof {
            lemma_al_get_at(self.player_credits@, player_id, i as int);
        }
        let rem = self.player_credits[i].1.remaining_credits;
        if amount > rem {
            return Err(AppError::internal("Not enough credits!"));
        }
        proof {
            // The pot can absorb the charge: its total plus the player's
            // whole balance still fits under the starting-credit sum.
            assert(forall|j: int|
                0 <= j < gt0@.pot_totals().len() ==> #[trigger] gt0@.pot_totals()[j] >= 0);
            assert(forall|j: int|
                0 <= j < gt0@.remainings().len() ==> #[trigger] gt0@.remainings()[j] >= 0);
            lemma_sum_ints_elem_le(gt0@.pot_totals(), 0);
            lemma_sum_ints_elem_le(gt0@.remainings(), i as int);
            lemma_sum_ints_nonneg(gt0@.remainings());
            lemma_sum_ints_nonneg(gt0@.pot_totals());
            assert(gt0@.remainings()[i as int] == rem as int);
            assert(gt0@.pot_totals()[0] == gt0@.main_total());
            assert(sum_ints(gt0@.pot_totals()) >= gt0@.main_total());
            assert(gt0@.main_total() + amount <= u64::MAX);
        }
        let r2 = self.player_credits[i].1.use_credits(amount, &mut self.credit_pots[0].1);
        match r2 {
            Ok(()) => {},
            Err(_) => {
                proof {
                    assert(false);
                }
                return Err(AppError::internal("Not enough credits!"));
            },
        }
        proof {
            lemma_pay_restores_wf(gt0@, *self, i as int, player_id, amount);
        }
        Ok(())
    }
}

/// After a successful charge the table is well formed again and conserved.
proof fn lemma_pay_restores_wf(
    t0: GameTable,
    t1: GameTable,
    i: int,
    player_id: u128,
    amount: u64,
)
    requires
        t0.wf(),
        t0.pots_wf(),
        t0.players_wf(),
        0 <= i < t0.player_credits@.len(),
        t0.player_credits@[i].0 == player_id,
        t1.match_id == t0.match_id,
        t1.dealer_id == t0.dealer_id,
        t1.player_queue_immut@ == t0.player_queue_immut@,
        t1.player_ids@ == t0.player_ids@,
        t1.player_credits@.len() == t0.player_credits@.len(),
        t1.credit_pots@.len() == t0.credit_pots@.len(),
        // the player's entry changed only in its balance and pot record
        t1.player_credits@ == t0.player_credits@.update(i, t1.player_credits@[i]),
        t1.player_credits@[i].0 == player_id,
        t1.player_credits@[i].1.player_id == player_id,
        t1.player_credits@[i].1.wf(),
        t1.player_credits@[i].1.starting_credits == t0.player_credits@[i].1.starting_credits,
        t1.player_credits@[i].1.remaining_credits == t0.player_credits@[i].1.remaining_credits
            - amount,
        // the main pot changed only in its total and contributions
        t1.credit_pots@ == t0.credit_pots@.update(0, t1.credit_pots@[0]),
        t1.credit_pots@[0].0 == t0.credit_pots@[0].0,
        t1.credit_pots@[0].1.pot_id == t0.credit_pots@[0].1.pot_id,
        t1.credit_pots@[0].1.is_main_pot == t0.credit_pots@[0].1.is_main_pot,
        t1.credit_pots@[0].1.wf(),
        t1.credit_pots@[0].1.total_credits == t0.credit_pots@[0].1.total_credits + amount,
    ensures
        t1.wf(),
        t1.pots_wf(),
        t1.players_wf(),
        t1.main_total() == t0.main_total() + amount,
        t1.remaining_of(player_id) == t0.remaining_of(player_id) - amount,
        forall|p: u128|
            p != player_id ==> al_get(t1.player_credits@, p) == al_get(t0.player_credits@, p),
        forall|p: u128| t1.starting_of(p) == t0.starting_of(p),
        forall|p: u128|
            #[trigger] al_contains(t1.player_credits@, p) <==> al_contains(t0.player_credits@, p),
{
    assert(t1.remainings() =~= t0.remainings().update(
        i,
        t1.player_credits@[i].1.remaining_credits as int,
    ));
    assert(t1.startings() =~= t0.startings());
    assert(t1.pot_totals() =~= t0.pot_totals().update(
        0,
        t1.credit_pots@[0].1.total_credits as int,
    ));
    lemma_sum_ints_update(t0.remainings(), i, t1.player_credits@[i].1.remaining_credits as int);
    lemma_sum_ints_update(t0.pot_totals(), 0, t1.credit_pots@[0].1.total_credits as int);
    assert(keys_unique(t1.player_credits@));
    assert(keys_unique(t1.credit_pots@));
    assert forall|p: u128| #[trigger]
        al_contains(t1.player_credits@, p) <==> al_contains(t0.player_credits@, p) by {
        if al_contains(t1.player_credits@, p) {
            let j = choose|j: int|
                0 <= j < t1.player_credits@.len() && (#[trigger] t1.player_credits@[j]).0 == p;
            assert((t0.player_credits@[j]).0 == p);
        }
        if al_contains(t0.player_credits@, p) {
            let j = choose|j: int|
                0 <= j < t0.player_credits@.len() && (#[trigger] t0.player_credits@[j]).0 == p;
            assert((t1.player_credits@[j]).0 == p);
        }
    }
    assert forall|p: u128| al_get(t1.player_credits@, p) == if p == player_id {
        Some(t1.player_credits@[i].1)
    } else {
        al_get(t0.player_credits@, p)
    } by {
        lemma_al_get_update(
            t0.player_credits@,
            i,
            player_id,
            t1.player_credits@[i].1,
            p,
        );
        assert(t1.player_credits@ =~= t0.player_credits@.update(
            i,
            (player_id, t1.player_credits@[i].1),
        ));
    }
    lemma_al_get_at(t0.player_credits@, player_id, i);
}

/// The freshly built table is well formed.
proof fn lemma_table_new_wf(t: GameTable, players: MatchStartPlayers, src: Seq<(u128, u64)>)
    requires
        players.wf(),
        src == players.player_credits@,
        t.player_ids@.len() == src.len(),
        t.player_credits@.len() == src.len(),
        forall|j: int| 0 <= j < src.len() ==> t.player_ids@[j] == (#[trigger] src[j]).0,
        forall|j: int|
            0 <= j < src.len() ==> (#[trigger] t.player_credits@[j]).0 == src[j].0
                && t.player_credits@[j].1.player_id == src[j].0
                && t.player_credits@[j].1.starting_credits == src[j].1
                && t.player_credits@[j].1.remaining_credits == src[j].1
                && t.player_credits@[j].1.wf(),
        t.player_queue_immut@ == players.ordered_player_queue@,
        t.credit_pots@.len() == 1,
        t.credit_pots@[0].1.is_main_pot,
        t.credit_pots@[0].1.total_credits == 0,
        t.credit_pots@[0].1.wf(),
        t.credit_pots@[0].0 == t.credit_pots@[0].1.pot_id,
    ensures
        t.wf(),
        t.pots_wf(),
        t.players_wf(),
        t.main_total() == 0,
        forall|p: u128|
            #[trigger] al_contains(t.player_credits@, p) <==> al_contains(src, p),
        forall|p: u128| t.remaining_of(p) == al_get_or_zero(src, p),
        forall|p: u128| t.starting_of(p) == al_get_or_zero(src, p),
{
    assert(keys_unique(t.player_credits@)) by {
        assert forall|a: int, b: int|
            0 <= a < b < t.player_credits@.len() implies (#[trigger] t.player_credits@[a]).0 != (
        #[trigger] t.player_credits@[b]).0 by {
            assert((src[a]).0 != (src[b]).0);
        }
    }
    assert(ids_unique(t.player_ids@)) by {
        assert forall|a: int, b: int|
            0 <= a < b < t.player_ids@.len() implies t.player_ids@[a] != t.player_ids@[b] by {
            assert((src[a]).0 != (src[b]).0);
        }
    }
    assert forall|p: u128| #[trigger]
        al_contains(t.player_credits@, p) <==> al_contains(src, p) by {
        if al_contains(t.player_credits@, p) {
            let j = choose|j: int|
                0 <= j < t.player_credits@.len() && (#[trigger] t.player_credits@[j]).0 == p;
            assert((src[j]).0 == p);
        }
        if al_contains(src, p) {
            let j = choose|j: int| 0 <= j < src.len() && (#[trigger] src[j]).0 == p;
            assert((t.player_credits@[j]).0 == p);
        }
    }
    assert forall|p: u128| #[trigger]
        al_contains(t.player_credits@, p) <==> t.player_ids@.contains(p) by {
        if al_contains(t.player_credits@, p) {
            let j = choose|j: int|
                0 <= j < t.player_credits@.len() && (#[trigger] t.player_credits@[j]).0 == p;
            assert(t.player_ids@[j] == p);
        }
        if t.player_ids@.contains(p) {
            let j = choose|j: int| 0 <= j < t.player_ids@.len() && t.player_ids@[j] == p;
            assert(t.player_credits@[j].0 == p);
        }
    }
    assert(t.player_ids@ =~= src.map_values(|e: (u128, u64)| e.0));
    assert(t.player_queue_immut@.to_multiset() == t.player_ids@.to_multiset());
    // the balances start equal, so conservation holds with empty pots
    assert(t.remainings() =~= t.startings());
    assert(t.pot_totals() =~= seq![0int]);
    assert(t.pot_totals().drop_last() =~= Seq::<int>::empty());
    assert(sum_ints(Seq::<int>::empty()) == 0);
    assert(sum_ints(t.pot_totals()) == 0);
    lemma_sums_agree(t.startings(), src);
    assert forall|p: u128| t.remaining_of(p) == al_get_or_zero(src, p) by {
        lemma_new_get_agrees(t, src, p);
    }
    assert forall|p: u128| t.starting_of(p) == al_get_or_zero(src, p) by {
        lemma_new_get_agrees(t, src, p);
    }
}

/// The starting sums of the built table equal the sums of the input map.
proof fn lemma_sums_agree(startings: Seq<int>, src: Seq<(u128, u64)>)
    requires
        startings.len() == src.len(),
        forall|j: int| 0 <= j < src.len() ==> startings[j] == (#[trigger] src[j]).1 as int,
    ensures
        sum_ints(startings) == sum_vals(src),
    decreases src.len(),
{
    if src.len() > 0 {
        assert(forall|j: int|
            0 <= j < src.drop_last().len() ==> startings.drop_last()[j] == (
            #[trigger] src.drop_last()[j]).1 as int);
        lemma_sums_agree(startings.drop_last(), src.drop_last());
    }
}

/// Lookups in the built table agree with the input credits map.
proof fn lemma_new_get_agrees(t: GameTable, src: Seq<(u128, u64)>, p: u128)
    requires
        keys_unique(src),
        keys_unique(t.player_credits@),
        t.player_credits@.len() == src.len(),
        forall|j: int|
            0 <= j < src.len() ==> (#[trigger] t.player_credits@[j]).0 == src[j].0
                && t.player_credits@[j].1.starting_credits == src[j].1
                && t.player_credits@[j].1.remaining_credits == src[j].1,
    ensures
        t.remaining_of(p) == al_get_or_zero(src, p),
        t.starting_of(p) == al_get_or_zero(src, p),
{
    lemma_al_get_some(t.player_credits@, p);
    lemma_al_get_some(src, p);
    if al_contains(src, p) {
        let j = choose|j: int| 0 <= j < src.len() && (#[trigger] src[j]).0 == p;
        lemma_al_get_at(src, p, j);
        lemma_al_get_at(t.player_credits@, p, j);
    } else {
        if al_contains(t.player_credits@, p) {
            let j = choose|j: int|
                0 <= j < t.player_credits@.len() && (#[trigger] t.player_credits@[j]).0 == p;
            assert(src[j].0 == p);
        }
    }
}

/// What a match starts from: the seating order (dealer first), each
/// player's starting credits, and the dealer.
#[derive(Clone, Debug)]
pub struct MatchStartPlayers {
    pub ordered_player_queue: Vec<u128>,
    pub player_credits: Vec<(u128, u64)>,
    pub dealer_id: u128,
}

impl MatchStartPlayers {
    pub open spec fn wf(self) -> bool {
        &&& keys_unique(self.player_credits@)
        &&& self.ordered_player_queue@.to_multiset() == self.player_credits@.map_values(
            |e: (u128, u64)| e.0,
        ).to_multiset()
        &&& 1 <= self.player_credits@.len() <= 6
        &&& sum_vals(self.player_credits@) <= u64::MAX
    }

    /// Draws a random seating order from the given players; the first seat
    /// deals.
    pub fn new(players: Vec<Player>) -> (m: MatchStartPlayers)
        requires
            1 <= players@.len() <= 6,
            forall|i: int, j: int|
                0 <= i < j < players@.len() ==> (#[trigger] players@[i]).player_id != (
                #[trigger] players@[j]).player_id,
            sum_ints(players@.map_values(|p: Player| p.total_credits as int)) <= u64::MAX,
        ensures
            m.wf(),
            m.player_credits@.len() == players@.len(),
            forall|j: int|
                0 <= j < players@.len() ==> (#[trigger] m.player_credits@[j]).0 == players@[j].player_id
                    && m.player_credits@[j].1 == players@[j].total_credits,
            forall|i: int|
                0 <= i < players@.len() ==> al_get_or_zero(
                    m.player_credits@,
                    (#[trigger] players@[i]).player_id,
                ) == players@[i].total_credits as int,
    {
        let mut queue: Vec<u128> = Vec::new();
        let mut credits: Vec<(u128, u64)> = Vec::new();
        let mut i: usize = 0;
        while i < players.len()
            invariant
                0 <= i <= players@.len(),
                forall|a: int, b: int|
                    0 <= a < b < players@.len() ==> (#[trigger] players@[a]).player_id != (
                    #[trigger] players@[b]).player_id,
                queue@.len() == i,
                credits@.len() == i,
                forall|j: int| 0 <= j < i ==> queue@[j] == (#[trigger] players@[j]).player_id,
                forall|j: int|
                    0 <= j < i ==> (#[trigger] credits@[j]).0 == players@[j].player_id
                        && credits@[j].1 == players@[j].total_credits,
                sum_vals(credits@) == sum_ints(
                    players@.take(i as int).map_values(|p: Player| p.total_credits as int),
                ),
            decreases players@.len() - i,
        {
            let p = players[i];
            queue.push(p.player_id);
            let gc0 = Ghost(credits@);
            credits.push((p.player_id, p.total_credits));
            proof {
                lemma_sum_push(gc0@, p.player_id, p.total_credits);
                assert(players@.take(i + 1).map_values(|q: Player| q.total_credits as int)
                    =~= players@.take(i as int).map_values(
                    |q: Player| q.total_credits as int,
                ).push(p.total_credits as int));
                lemma_sum_ints_push(
                    players@.take(i as int).map_values(|q: Player| q.total_credits as int),
                    p.total_credits as int,
                );
            }
            i = i + 1;
        }
        proof {
            assert(players@.take(players@.len() as int) =~= players@);
            assert(queue@ =~= credits@.map_values(|e: (u128, u64)| e.0));
        }
        crate::deck::shuffle_in_place(&mut queue);
        proof {
            broadcast use vstd::seq_lib::group_to_multiset_ensures;

            assert(queue@.to_multiset().len() == credits@.map_values(
                |e: (u128, u64)| e.0,
            ).to_multiset().len());
        }
        proof {
            assert(keys_unique(credits@)) by {
                assert forall|a: int, b: int|
                    0 <= a < b < credits@.len() implies (#[trigger] credits@[a]).0 != (
                #[trigger] credits@[b]).0 by {
                    assert((players@[a]).player_id != (players@[b]).player_id);
                }
            }
            assert forall|j: int|
                0 <= j < players@.len() implies al_get_or_zero(
                credits@,
                (#[trigger] players@[j]).player_id,
            ) == players@[j].total_credits as int by {
                lemma_al_get_at(credits@, players@[j].player_id, j);
            }
        }
        let dealer_id = queue[0];
        MatchStartPlayers { ordered_player_queue: queue, player_credits: credits, dealer_id }
    }
}

} // verus!
