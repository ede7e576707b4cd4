//! Lobbies: membership, matchmaking acceptance, and the start of a match.
use vstd::prelude::*;

use crate::error::AppError;
use crate::kv::{sum_ints, lemma_sum_ints_push};
use crate::player::{Player, fresh_id};
use crate::poker::GamePhase;
use crate::table::{MatchStartPlayers, ids_unique};

verus! {

/// Whether a lobby is idle, gathering acceptances, or playing.
#[derive(Clone, Copy, PartialEq, Eq, Structural, Debug)]
pub enum LobbyStatus {
    Idle,
    Matchmaking,
    InGame,
}

/// Per-lobby configuration for the matches it starts.
#[derive(Clone, Copy, PartialEq, Eq, Structural, Debug)]
pub struct LobbySettings {
    pub min_players: u8,
    pub max_players: u8,
    pub ante_amount: u64,
}

impl LobbySettings {
    /// Validated settings: at least two seats, at most six — the deck plus
    /// one reshuffle covers six five-card hands, no more.
    pub fn new(min_players: u8, max_players: u8, ante_amount: u64) -> (r: Result<
        LobbySettings,
        AppError,
    >)
        ensures
            min_players < 2 ==> r is Err,
            max_players > 6 ==> r is Err,
            2 <= min_players && max_players <= 6 ==> r == Ok::<LobbySettings, AppError>(
                LobbySettings { min_players, max_players, ante_amount },
            ),
    {
        if min_players < 2 {
            return Err(AppError::invalid_request("Minimum number of players not met!"));
        }
        if max_players > 6 {
            return Err(AppError::invalid_request("Maximum number of players exceeded!"));
        }
        Ok(LobbySettings { min_players, max_players, ante_amount })
    }
}

impl Default for LobbySettings {
    /// Two to six players, an ante of ten.
    fn default() -> (r: LobbySettings)
        ensures
            r == (LobbySettings { min_players: 2u8, max_players: 6u8, ante_amount: 10u64 }),
    {
        LobbySettings { min_players: 2, max_players: 6, ante_amount: 10 }
    }
}

/// One running match: its identity and its phase state. The driver wraps
/// the phase behind a lock and steps it.
#[derive(Clone, Debug)]
pub struct Match {
    pub match_id: u128,
    pub lobby_id: u128,
    pub player_ids: Vec<u128>,
    pub phase: GamePhase,
}

/// Whether a list of players can seat a match: one to six distinct
/// players, each able to post the ante, with a bounded credit total.
pub open spec fn seating_ok(players: Seq<Player>, ante_amount: u64) -> bool {
    &&& 1 <= players.len() <= 6
    &&& (forall|a: int, b: int|
        0 <= a < b < players.len() ==> (#[trigger] players[a]).player_id != (
        #[trigger] players[b]).player_id)
    &&& (forall|a: int| 0 <= a < players.len() ==> (#[trigger] players[a]).total_credits
        >= ante_amount)
    &&& sum_ints(players.map_values(|p: Player| p.total_credits as int)) <= u64::MAX
}

impl Match {
    pub open spec fn wf(self) -> bool {
        self.phase.wf()
    }

    /// Seats the given players at a new match in the ante phase. Rejected
    /// when the seats, balances or credit sums do not support a match.
    pub fn new(lobby_id: u128, players: Vec<Player>, ante_amount: u64, now_ms: i64) -> (r: Result<
        Match,
        AppError,
    >)
        ensures
            r is Ok <==> seating_ok(players@, ante_amount),
            r matches Ok(m) ==> m.wf() && m.lobby_id == lobby_id && m.player_ids@.len()
                == players@.len(),
            r matches Err(e) ==> e is PreconditionFailed,
    {
        if players.len() < 1 || players.len() > 6 {
            return Err(AppError::precondition_failed("A match seats one to six players!"));
        }
        // distinct players, enough credits for the ante, bounded total
        let mut i: usize = 0;
        let mut sum: u64 = 0;
        while i < players.len()
            invariant
                0 <= i <= players@.len(),
                forall|a: int, b: int|
                    0 <= a < i && a < b < players@.len() ==> (#[trigger] players@[a]).player_id
                        != (#[trigger] players@[b]).player_id,
                forall|a: int|
                    0 <= a < i ==> (#[trigger] players@[a]).total_credits >= ante_amount,
                sum as int == sum_ints(
                    players@.take(i as int).map_values(|p: Player| p.total_credits as int),
                ),
            decreases players@.len() - i,
        {
            let p = players[i];
            if p.total_credits < ante_amount {
                return Err(AppError::precondition_failed("A player can't afford the ante!"));
            }
            let mut j: usize = i + 1;
            while j < players.len()
                invariant
                    0 <= i < j <= players@.len(),
                    p == players@[i as int],
                    forall|b: int|
                        i < b < j ==> (#[trigger] players@[b]).player_id != players@[i as int].player_id,
                decreases players@.len() - j,
            {
                if players[j].player_id == p.player_id {
                    return Err(AppError::precondition_failed("Duplicate player!"));
                }
                j = j + 1;
            }
            let next_sum = match sum.checked_add(p.total_credits) {
                Some(s) => s,
                None => {
                    proof {
                        // the overflowing prefix bounds the whole sum from
                        // below: the seating cannot be in order
                        let all = players@.map_values(|q: Player| q.total_credits as int);
                        assert(players@.take(i + 1).map_values(
                            |q: Player| q.total_credits as int,
                        ) =~= players@.take(i as int).map_values(
                            |q: Player| q.total_credits as int,
                        ).push(p.total_credits as int));
                        lemma_sum_ints_push(
                            players@.take(i as int).map_values(
                                |q: Player| q.total_credits as int,
                            ),
                            p.total_credits as int,
                        );
                        assert(players@.take(i + 1).map_values(
                            |q: Player| q.total_credits as int,
                        ) =~= all.take(i + 1));
                        assert(forall|l: int| 0 <= l < all.len() ==> #[trigger] all[l] >= 0);
                        crate::kv::lemma_sum_ints_take_le(all, i + 1);
                    }
                    return Err(AppError::precondition_failed("Credit total out of range!"));
                },
            };
            proof {
                assert(players@.take(i + 1).map_values(|q: Player| q.total_credits as int)
                    =~= players@.take(i as int).map_values(
                    |q: Player| q.total_credits as int,
                ).push(p.total_credits as int));
                lemma_sum_ints_push(
                    players@.take(i as int).map_values(|q: Player| q.total_credits as int),
                    p.total_credits as int,
                );
            }
            sum = next_sum;
            i = i + 1;
        }
        proof {
            assert(players@.take(players@.len() as int) =~= players@);
            assert(players@.take(players@.len() as int).map_values(
                |q: Player| q.total_credits as int,
            ) =~= players@.map_values(|q: Player| q.total_credits as int));
            assert(seating_ok(players@, ante_amount));
        }
        let match_id = fresh_id();
        let start_players = MatchStartPlayers::new(players);
        let player_ids = copy_ids(&start_players.ordered_player_queue);
        proof {
            broadcast use vstd::seq_lib::group_to_multiset_ensures;

            assert(start_players.ordered_player_queue@.to_multiset().len()
                == start_players.player_credits@.map_values(
                |e: (u128, u64)| e.0,
            ).to_multiset().len());
        }
        let phase = GamePhase::new(match_id, start_players, ante_amount, now_ms);
        Ok(Match { match_id, lobby_id, player_ids, phase })
    }
}

fn copy_ids(v: &Vec<u128>) -> (out: Vec<u128>)
    ensures
        out@ == v@,
{
    let mut out: Vec<u128> = Vec::new();
    let mut i: usize = 0;
    while i < v.len()
        invariant
            0 <= i <= v@.len(),
            out@ == v@.take(i as int),
        decreases v@.len() - i,
    {
        out.push(v[i]);
        proof {
            assert(v@.take(i + 1) =~= v@.take(i as int).push(v@[i as int]));
        }
        i = i + 1;
    }
    proof {
        assert(v@.take(v@.len() as int) =~= v@);
    }
    out
}

/// A lobby: its members, its matchmaking state, and its running match if
/// one is on. Broadcasting lives with the transport layer.
#[derive(Clone, Debug)]
pub struct Lobby {
    pub lobby_id: u128,
    pub name: String,
    pub host_player_id: u128,
    pub player_ids: Vec<u128>,
    /// `Some` while matchmaking: who has accepted so far.
    pub game_acceptance: Option<Vec<u128>>,
    pub game_match: Option<Match>,
    pub settings: LobbySettings,
}

impl Lobby {
    pub open spec fn wf(self) -> bool {
        &&& ids_unique(self.player_ids@)
        &&& self.player_ids@.contains(self.host_player_id)
        &&& match self.game_acceptance {
            Some(acc) => ids_unique(acc@) && (forall|i: int|
                0 <= i < acc@.len() ==> self.player_ids@.contains(#[trigger] acc@[i])),
            None => true,
        }
        &&& match self.game_match {
            Some(m) => m.wf(),
            None => true,
        }
    }

    /// Opens a lobby with the host as its only member.
    pub fn new(lobby_name: String, host_player_id: u128) -> (l: Lobby)
        ensures
            l.wf(),
            l.host_player_id == host_player_id,
            l.player_ids@.len() == 1,
            l.game_acceptance is None,
            l.game_match is None,
            l.name@ == lobby_name@,
    {
        let mut player_ids: Vec<u128> = Vec::new();
        player_ids.push(host_player_id);
        proof {
            assert(player_ids@[0] == host_player_id);
        }
        Lobby {
            lobby_id: fresh_id(),
            name: lobby_name,
            host_player_id,
            player_ids,
            game_acceptance: None,
            game_match: None,
            settings: LobbySettings::default(),
        }
    }

    pub fn is_in_game(&self) -> (r: bool)
        ensures
            r == (self.game_match is Some),
    {
        match &self.game_match {
            Some(_) => true,
            None => false,
        }
    }

    pub fn is_in_game_then_id(&self) -> (r: Option<u128>)
        ensures
            r matches Some(id) ==> self.game_match matches Some(m) && m.match_id == id,
            r is None <==> self.game_match is None,
    {
        match &self.game_match {
            Some(m) => Some(m.match_id),
            None => None,
        }
    }

    pub fn is_matchmaking(&self) -> (r: bool)
        ensures
            r == (self.game_acceptance is Some),
    {
        match &self.game_acceptance {
            Some(_) => true,
            None => false,
        }
    }

    pub fn is_matchmaking_then_acceptance(&self) -> (r: Option<&Vec<u128>>)
        ensures
            r is Some <==> self.game_acceptance is Some,
    {
        match &self.game_acceptance {
            Some(acc) => Some(acc),
            None => None,
        }
    }

    /// Membership changes are allowed only in an idle lobby.
    pub fn lobby_locked_validation(&self) -> (r: Result<(), AppError>)
        ensures
            r is Ok <==> (self.game_match is None && self.game_acceptance is None),
    {
        if self.is_in_game() {
            return Err(AppError::unauthorized("Cannot operate on lobby while in-game!"));
        }
        if self.is_matchmaking() {
            return Err(AppError::unauthorized("Cannot operate on lobby while matchmaking!"));
        }
        Ok(())
    }

    /// A game may start when the lobby is matchmaking, not playing, has
    /// enough members, and everyone has accepted.
    pub fn check_game_start_possible(&self) -> (r: Result<(), AppError>)
        ensures
            r is Ok <==> (self.game_match is None && (self.game_acceptance matches Some(acc)
                && self.player_ids@.len() >= self.settings.min_players && (forall|i: int|
                0 <= i < self.player_ids@.len() ==> acc@.contains(
                    #[trigger] self.player_ids@[i],
                )))),
            r matches Err(e) ==> e is PreconditionFailed,
    {
        if self.is_in_game() {
            return Err(AppError::precondition_failed("Lobby already in-game!"));
        }
        let acceptance = match &self.game_acceptance {
            Some(acc) => acc,
            None => {
                return Err(AppError::precondition_failed("Lobby not currently matchmaking!"));
            },
        };
        if self.player_ids.len() < (self.settings.min_players as usize) {
            return Err(AppError::precondition_failed("Minimum number of players unmet!"));
        }
        // everyone must have accepted
        let mut i: usize = 0;
        while i < self.player_ids.len()
            invariant
                0 <= i <= self.player_ids@.len(),
                self.game_acceptance matches Some(a) && a == acceptance,
                forall|j: int|
                    0 <= j < i ==> acceptance@.contains(#[trigger] self.player_ids@[j]),
            decreases self.player_ids@.len() - i,
        {
            if !contains_id(acceptance, self.player_ids[i]) {
                return Err(
                    AppError::precondition_failed("All players need to accept matchmaking!"),
                );
            }
            i = i + 1;
        }
        Ok(())
    }

    /// Installs the started match and leaves matchmaking.
    pub fn start_match(&mut self, game_match: Match)
        requires
            old(self).wf(),
            game_match.wf(),
        ensures
            final(self).wf(),
            final(self).game_match is Some,
            final(self).game_acceptance is None,
    {
        self.game_acceptance = None;
        self.game_match = Some(game_match);
    }

    /// Opens matchmaking with the host counted as accepting; a no-op while
    /// already matchmaking, rejected in game or with too few members.
    pub fn start_matchmaking(&mut self) -> (r: Result<(), AppError>)
        requires
            old(self).wf(),
        ensures
            final(self).wf(),
            r is Ok ==> (final(self).game_acceptance is Some || old(self).game_acceptance is Some),
    {
        if self.is_matchmaking() {
            return Ok(());
        }
        match self.lobby_locked_validation() {
            Ok(()) => {},
            Err(e) => {
                return Err(e);
            },
        }
        if self.player_ids.len() < (self.settings.min_players as usize) {
            return Err(AppError::precondition_failed("Minimum number of players unmet!"));
        }
        let mut acc: Vec<u128> = Vec::new();
        acc.push(self.host_player_id);
        proof {
            assert(acc@[0] == self.host_player_id);
        }
        self.game_acceptance = Some(acc);
        Ok(())
    }

    /// Resets every acceptance, keeping matchmaking open.
    pub fn clear_matchmaking(&mut self)
        requires
            old(self).wf(),
        ensures
            final(self).wf(),
            final(self).game_acceptance is Some ==> final(self).game_acceptance->Some_0@.len() == 0,
    {
        match &self.game_acceptance {
            Some(_) => {
                self.game_acceptance = Some(Vec::new());
            },
            None => {},
        }
    }

    /// Closes matchmaking.
    pub fn stop_matchmaking(&mut self)
        requires
            old(self).wf(),
        ensures
            final(self).wf(),
            final(self).game_acceptance is None,
    {
        self.game_acceptance = None;
    }

    /// Adds a member; rejected while matchmaking or in game.
    pub fn add_player(&mut self, player_id: u128) -> (r: Result<(), AppError>)
        requires
            old(self).wf(),
        ensures
            final(self).wf(),
            r is Ok ==> final(self).player_ids@.contains(player_id),
            r is Err ==> *final(self) == *old(self),
    {
        match self.lobby_locked_validation() {
            Ok(()) => {},
            Err(e) => {
                return Err(e);
            },
        }
        if contains_id(&self.player_ids, player_id) {
            return Ok(());
        }
        let gp = Ghost(self.player_ids@);
        self.player_ids.push(player_id);
        proof {
            assert(self.player_ids@[self.player_ids@.len() - 1] == player_id);
            assert forall|a: int, b: int|
                0 <= a < b < self.player_ids@.len() implies self.player_ids@[a]
                != self.player_ids@[b] by {
                if b < self.player_ids@.len() - 1 {
                    assert(self.player_ids@[a] == gp@[a]);
                    assert(self.player_ids@[b] == gp@[b]);
                } else {
                    assert(self.player_ids@[a] == gp@[a]);
                    assert(gp@.contains(gp@[a]));
                }
            }
            assert(self.player_ids@.contains(self.host_player_id)) by {
                let j = choose|j: int| 0 <= j < gp@.len() && gp@[j] == old(self).host_player_id;
                assert(self.player_ids@[j] == old(self).host_player_id);
            }
        }
        Ok(())
    }

    /// Removes a member; rejected while matchmaking or in game, a no-op
    /// for a stranger.
    pub fn rm_player(&mut self, player_id: u128) -> (r: Result<(), AppError>)
        requires
            old(self).wf(),
            player_id != old(self).host_player_id,
        ensures
            final(self).wf(),
            r is Ok ==> !final(self).player_ids@.contains(player_id),
            r is Err ==> *final(self) == *old(self),
    {
        match self.lobby_locked_validation() {
            Ok(()) => {},
            Err(e) => {
                return Err(e);
            },
        }
        match crate::kv::al_find_id(&self.player_ids, player_id) {
            None => {
                proof {
                    if self.player_ids@.contains(player_id) {
                        let j = choose|j: int|
                            0 <= j < self.player_ids@.len() && self.player_ids@[j] == player_id;
                    }
                }
                Ok(())
            },
            Some(i) => {
                let gp = Ghost(self.player_ids@);
                self.player_ids.remove(i);
                proof {
                    assert forall|a: int, b: int|
                        0 <= a < b < self.player_ids@.len() implies self.player_ids@[a]
                        != self.player_ids@[b] by {
                        let a0 = if a < i {
                            a
                        } else {
                            a + 1
                        };
                        let b0 = if b < i {
                            b
                        } else {
                            b + 1
                        };
                        assert(self.player_ids@[a] == gp@[a0]);
                        assert(self.player_ids@[b] == gp@[b0]);
                    }
                    if self.player_ids@.contains(player_id) {
                        let j = choose|j: int|
                            0 <= j < self.player_ids@.len() && self.player_ids@[j] == player_id;
                        let j0 = if j < i {
                            j
                        } else {
                            j + 1
                        };
                        assert(gp@[j0] == player_id);
                        assert(gp@[i as int] == player_id);
                        assert(false);
                    }
                    assert(self.player_ids@.contains(self.host_player_id)) by {
                        let j = choose|j: int|
                            0 <= j < gp@.len() && gp@[j] == old(self).host_player_id;
                        assert(j != i);
                        let j1 = if j < i {
                            j
                        } else {
                            j - 1
                        };
                        assert(self.player_ids@[j1] == old(self).host_player_id);
                    }
                }
                Ok(())
            },
        }
    }

    /// Records or withdraws a member's matchmaking acceptance.
    pub fn set_match_acceptance(&mut self, player_id: u128, acceptance: bool) -> (r: Result<
        (),
        AppError,
    >)
        requires
            old(self).wf(),
        ensures
            final(self).wf(),
            old(self).game_match is Some ==> r is Err,
            !old(self).player_ids@.contains(player_id) ==> r is Err,
    {
        if self.is_in_game() {
            return Err(
                AppError::unauthorized("Cannot modify matchmaking acceptance while in-game!"),
            );
        }
        if !contains_id(&self.player_ids, player_id) {
            return Err(AppError::not_found(player_id));
        }
        let acc = match &self.game_acceptance {
            None => {
                return Ok(());
            },
            Some(acc) => acc,
        };
        if acceptance {
            if contains_id(acc, player_id) {
                return Ok(());
            }
            let mut acc2 = copy_ids(acc);
            let gacc = Ghost(acc2@);
            acc2.push(player_id);
            proof {
                assert(acc2@[acc2@.len() - 1] == player_id);
                assert forall|a: int, b: int|
                    0 <= a < b < acc2@.len() implies acc2@[a] != acc2@[b] by {
                    if b < acc2@.len() - 1 {
                        assert(acc2@[a] == gacc@[a]);
                        assert(acc2@[b] == gacc@[b]);
                    } else {
                        assert(acc2@[a] == gacc@[a]);
                        assert(gacc@.contains(gacc@[a]));
                    }
                }
                assert forall|l: int|
                    0 <= l < acc2@.len() implies self.player_ids@.contains(
                    #[trigger] acc2@[l],
                ) by {
                    if l < acc2@.len() - 1 {
                        assert(acc2@[l] == gacc@[l]);
                    }
                }
            }
            self.game_acceptance = Some(acc2);
        } else {
            match crate::kv::al_find_id(acc, player_id) {
                None => {
                    return Ok(());
                },
                Some(i) => {
                    let mut acc2 = copy_ids(acc);
                    let gacc = Ghost(acc2@);
                    acc2.remove(i);
                    proof {
                        assert forall|a: int, b: int|
                            0 <= a < b < acc2@.len() implies acc2@[a] != acc2@[b] by {
                            let a0 = if a < i {
                                a
                            } else {
                                a + 1
                            };
                            let b0 = if b < i {
                                b
                            } else {
                                b + 1
                            };
                            assert(acc2@[a] == gacc@[a0]);
                            assert(acc2@[b] == gacc@[b0]);
                        }
                        assert forall|l: int|
                            0 <= l < acc2@.len() implies self.player_ids@.contains(
                            #[trigger] acc2@[l],
                        ) by {
                            let l0 = if l < i {
                                l
                            } else {
                                l + 1
                            };
                            assert(acc2@[l] == gacc@[l0]);
                        }
                    }
                    self.game_acceptance = Some(acc2);
                },
            }
        }
        Ok(())
    }

    /// The lobby's lifecycle state: playing beats matchmaking beats idle.
    pub fn get_status(&self) -> (r: LobbyStatus)
        ensures
            r == (if self.game_match is Some {
                LobbyStatus::InGame
            } else if self.game_acceptance is Some {
                LobbyStatus::Matchmaking
            } else {
                LobbyStatus::Idle
            }),
    {
        if self.is_in_game() {
            LobbyStatus::InGame
        } else if self.is_matchmaking() {
            LobbyStatus::Matchmaking
        } else {
            LobbyStatus::Idle
        }
    }

    pub fn is_player(&self, player_id: u128) -> (r: bool)
        ensures
            r == self.player_ids@.contains(player_id),
    {
        contains_id(&self.player_ids, player_id)
    }

    pub fn is_host_player(&self, player_id: u128) -> (r: bool)
        ensures
            r == (player_id == self.host_player_id),
    {
        self.host_player_id == player_id
    }
}

fn contains_id(v: &Vec<u128>, id: u128) -> (r: bool)
    ensures
        r == v@.contains(id),
{
    let mut i: usize = 0;
    while i < v.len()
        invariant
            0 <= i <= v@.len(),
            forall|j: int| 0 <= j < i ==> v@[j] != id,
        decreases v@.len() - i,
    {
        if v[i] == id {
            return true;
        }
        i = i + 1;
    }
    false
}

} // verus!
