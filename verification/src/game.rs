use vstd::prelude::*;

use crate::player::{Player, PlayerView};
use crate::rules::Rules;
use crate::rules::round::{same_accounts, players_ready, players_given_back, error_of};
use crate::rules::table::{views, balances, player_ids};

verus! {

/// A fresh ID, `uuid::Uuid::now_v7()` as a number. Its value comes from the clock, a counter
/// and random bits, so nothing is stated of it.
#[verifier::external_body]
pub(crate) fn fresh_id() -> (id: u128) {
    uuid::Uuid::now_v7().as_u128()
}

/// The players of `ps` whose balance covers the minimum bet `min`, in order.
pub open spec fn solvent(ps: Seq<Player>, min: nat) -> Seq<Player>
    decreases ps.len(),
{
    if ps.len() == 0 {
        ps
    } else {
        let r = solvent(ps.drop_last(), min);
        if ps.last()@.balance >= min {
            r.push(ps.last())
        } else {
            r
        }
    }
}

/// The first seat of `ps` whose player has the account `id`, if any.
pub open spec fn seat_of(ps: Seq<PlayerView>, id: u128) -> Option<int> {
    if exists|i: int| 0 <= i < ps.len() && (#[trigger] ps[i]).account_id == id {
        Some(choose|i: int| 0 <= i < ps.len() && (#[trigger] ps[i]).account_id == id && forall|j: int| 0 <= j < i ==> (#[trigger] ps[j]).account_id != id)
    } else {
        None
    }
}

/// A game: a set of players who play rounds of one poker variant, with a minimum bet that a
/// player's balance must cover to play a round.
pub struct Game<T: Rules> {
    players: Vec<Player>,
    rules: T,
    minimum_bet: u32,
}

/// What a game is: its players, its rules and its minimum bet.
pub struct GameView<T> {
    pub players: Seq<Player>,
    pub rules: T,
    pub minimum_bet: u32,
}

impl<T: Rules> View for Game<T> {
    type V = GameView<T>;

    closed spec fn view(&self) -> GameView<T> {
        GameView { players: self.players@, rules: self.rules, minimum_bet: self.minimum_bet }
    }
}

impl<T: Rules> Game<T> {
    /// The players of the game can play rounds: each has an account of their own (a player
    /// is added only under a new account) and none holds cards.
    pub open spec fn ready(&self) -> bool {
        players_ready(views(self@.players))
    }

    /// Whether the players of the game can play rounds (see `ready`).
    pub fn is_ready(&self) -> (r: bool)
        ensures
            r == self.ready(),
    {
        let shared = crate::rules::round::shared_account(&self.players);
        let held = crate::rules::round::holds_cards(&self.players);
        proof {
            if !held {
                assert forall|i: int| 0 <= i < self@.players.len() implies (#[trigger] views(self@.players)[i]).cards.len() == 0 by {
                    assert(views(self@.players)[i] == self@.players[i]@);
                }
            } else {
                let i = choose|i: int| 0 <= i < self.players@.len() && (#[trigger] self.players@[i])@.cards.len() > 0;
                assert(views(self@.players)[i] == self.players@[i]@);
            }
        }
        !shared && !held
    }

    /// A new game with no players, whose rules (set by the type parameter) have the raise
    /// limit, the minimum bet and a fresh game ID.
    pub fn new(raise_limit: u32, minimum_bet: u32) -> (g: Game<T>)
        ensures
            g@.players.len() == 0,
            g.ready(),
            g@.rules.wf(),
            g@.minimum_bet == minimum_bet,
    {
        let game_id = fresh_id();
        Game { players: Vec::new(), rules: T::new(raise_limit, minimum_bet, game_id), minimum_bet }
    }

    /// Plays a round: the players whose balance does not cover the minimum bet leave the
    /// game, and the others, in their order, play a round by the rules and are kept as the
    /// round gives them back. When no player is left, no round is played. The error of a
    /// round that cannot be played, or of no round at all, is returned.
    pub fn play_game(&mut self) -> (r: Result<(), &'static str>)
        requires
            old(self)@.rules.wf(),
            old(self).ready(),
        ensures
            final(self)@.rules.wf(),
            final(self).ready(),
            final(self)@.minimum_bet == old(self)@.minimum_bet,
            ({
                let kept = solvent(old(self)@.players, old(self)@.minimum_bet as nat);
                &&& kept.len() == 0 ==> r == Err::<(), &'static str>("Not enough players to start a game!")
                    && final(self)@ == (GameView { players: kept, ..old(self)@ })
                &&& kept.len() > 0 ==> same_accounts(views(kept), views(final(self)@.players))
                    && balances(views(final(self)@.players)) <= balances(views(kept))
                &&& kept.len() > 0 ==> T::round_played(
                    old(self)@.rules,
                    final(self)@.rules,
                    views(kept),
                    views(final(self)@.players),
                    match r {
                        Ok(_) => None,
                        Err(e) => Some(e),
                    },
                )
            }),
    {
        let ghost ps = self.players@;
        let min: usize = self.minimum_bet as usize;
        let mut playing: Vec<Player> = Vec::new();
        proof {
            assert(views(playing@) =~= Seq::<crate::player::PlayerView>::empty());
            assert(player_ids(views(playing@)) =~= Seq::<u128>::empty());
        }
        std::mem::swap(&mut playing, &mut self.players);
        let mut i: usize = 0;
        let ghost mut j: int = 0;
        assert(ps.subrange(0, 0) =~= Seq::<Player>::empty());
        while i < playing.len()
            invariant
                0 <= j <= ps.len(),
                i <= playing@.len(),
                min == old(self)@.minimum_bet,
                ps == old(self)@.players,
                self@.rules == old(self)@.rules,
                self@.minimum_bet == old(self)@.minimum_bet,
                self@.players.len() == 0,
                players_ready(views(playing@)),
                i == solvent(ps.subrange(0, j), min as nat).len(),
                playing@ == solvent(ps.subrange(0, j), min as nat) + ps.subrange(j, ps.len() as int),
            decreases ps.len() - j,
        {
            proof {
                assert(ps.subrange(0, j + 1).drop_last() =~= ps.subrange(0, j));
                assert(ps.subrange(0, j + 1).last() == ps[j]);
                assert(playing@[i as int] == ps[j]);
            }
            if playing[i].balance() < min {
                proof {
                    lemma_ready_remove(playing@, i as int);
                }
                let _ = playing.remove(i);
                proof {
                    assert(playing@ =~= solvent(ps.subrange(0, j + 1), min as nat) + ps.subrange(j + 1, ps.len() as int));
                }
            } else {
                proof {
                    assert(playing@ =~= solvent(ps.subrange(0, j + 1), min as nat) + ps.subrange(j + 1, ps.len() as int));
                }
                i = i + 1;
            }
            proof {
                j = j + 1;
            }
        }
        proof {
            assert(j == ps.len()) by {
                if j < ps.len() {
                    assert(playing@.len() > i);
                }
            }
            assert(ps.subrange(0, j) =~= ps);
            assert(playing@ =~= solvent(ps, min as nat));
        }
        if playing.len() == 0 {
            self.players = playing;
            return Err("Not enough players to start a game!");
        }
        let ghost given = views(playing@);
        let round = self.rules.play_round(playing);
        proof {
            let back = players_given_back(round);
            assert forall|k: int| 0 <= k < back.len() implies (#[trigger] back[k]).cards.len() == 0 by {}
            assert forall|a: int, b: int| 0 <= a < b < back.len() implies player_ids(back)[a] != player_ids(back)[b] by {
                assert(player_ids(back)[a] == player_ids(given)[a]);
                assert(player_ids(back)[b] == player_ids(given)[b]);
            }
        }
        match round {
            Ok(back) => {
                proof {
                    assert(views(back@) == players_given_back(round));
                }
                self.players = back;
                Ok(())
            },
            Err((e, back)) => {
                proof {
                    assert(views(back@) == players_given_back(round));
                }
                self.players = back;
                Err(e)
            },
        }
    }

    /// The seat of the player with the account `player_id`: Ok(seat) if that player is in
    /// this game (the first such seat), Err(()) otherwise.
    pub fn find_player_by_id(&self, player_id: u128) -> (r: Result<usize, ()>)
        ensures
            r is Ok <==> seat_of(views(self@.players), player_id) is Some,
            r matches Ok(i) ==> seat_of(views(self@.players), player_id) == Some(i as int) && i < self@.players.len()
                && self@.players[i as int]@.account_id == player_id,
    {
        let ghost vs = views(self@.players);
        let mut i: usize = 0;
        while i < self.players.len()
            invariant
                i <= self.players@.len(),
                vs == views(self@.players),
                forall|j: int| 0 <= j < i ==> (#[trigger] vs[j]).account_id != player_id,
            decreases self.players@.len() - i,
        {
            assert(vs[i as int] == self.players@[i as int]@);
            if self.players[i].account_id() == player_id {
                proof {
                    let k = choose|k: int| 0 <= k < vs.len() && (#[trigger] vs[k]).account_id == player_id && forall|j: int|
                        0 <= j < k ==> (#[trigger] vs[j]).account_id != player_id;
                    assert(vs[i as int].account_id == player_id);
                    if k < i {
                        assert(vs[k].account_id != player_id);
                    }
                    if k > i {
                        assert(vs[i as int].account_id != player_id);
                    }
                }
                return Ok(i);
            }
            i = i + 1;
        }
        proof {
            assert(!exists|k: int| 0 <= k < vs.len() && (#[trigger] vs[k]).account_id == player_id);
        }
        Err(())
    }

    /// Adds a player to this game. Ok(()) if the player was added, last; Err(message) if a
    /// player with the same account is already in this game, which then stays as it is.
    pub fn add_player(&mut self, new_player: Player) -> (r: Result<(), String>)
        ensures
            (old(self).ready() && new_player@.cards.len() == 0) ==> final(self).ready(),
            final(self)@.rules == old(self)@.rules,
            final(self)@.minimum_bet == old(self)@.minimum_bet,
            r is Err <==> seat_of(views(old(self)@.players), new_player@.account_id) is Some,
            r matches Err(e) ==> e@ == "Player already in players for this game"@ && final(self)@.players == old(self)@.players,
            r is Ok ==> final(self)@.players == old(self)@.players.push(new_player),
    {
        let player_index = self.find_player_by_id(new_player.account_id());
        match player_index {
            Ok(_) => Err("Player already in players for this game".to_string()),
            Err(_) => {
                proof {
                    if old(self).ready() && new_player@.cards.len() == 0 {
                        lemma_ready_push(self.players@, new_player);
                    }
                }
                let mut ps: Vec<Player> = Vec::new();
                std::mem::swap(&mut ps, &mut self.players);
                ps.push(new_player);
                self.players = ps;
                Ok(())
            },
        }
    }

    /// Removes a player from this game: the player of the account `player_id` leaves, and the
    /// last player takes their seat. Ok(()) if the player was removed; Err(message) if no
    /// player of that account is in this game, which then stays as it is.
    pub fn remove_player(&mut self, player_id: u128) -> (r: Result<(), String>)
        ensures
            old(self).ready() ==> final(self).ready(),
            final(self)@.rules == old(self)@.rules,
            final(self)@.minimum_bet == old(self)@.minimum_bet,
            r is Err <==> seat_of(views(old(self)@.players), player_id) is None,
            r matches Err(e) ==> e@ == "Could not remove player from game with that ID."@ && final(self)@.players
                == old(self)@.players,
            r is Ok ==> ({
                let ps = old(self)@.players;
                let i = seat_of(views(ps), player_id)->0;
                final(self)@.players == ps.update(i, ps.last()).drop_last()
            }),
    {
        let player_index = self.find_player_by_id(player_id);
        match player_index {
            Ok(i) => {
                proof {
                    if old(self).ready() {
                        lemma_ready_swap_remove(self.players@, i as int);
                    }
                }
                let mut ps: Vec<Player> = Vec::new();
                std::mem::swap(&mut ps, &mut self.players);
                let _ = ps.swap_remove(i);
                self.players = ps;
                Ok(())
            },
            Err(_) => Err("Could not remove player from game with that ID.".to_string()),
        }
    }

    /// The game's rules, with the pot of the last round.
    pub fn rules(&self) -> (r: &T)
        ensures
            *r == self@.rules,
    {
        &self.rules
    }

    /// The players in the game, in order.
    pub fn players(&self) -> (ps: Vec<&Player>)
        ensures
            ps@.len() == self@.players.len(),
            forall|i: int| 0 <= i < ps@.len() ==> *(#[trigger] ps@[i]) == self@.players[i],
    {
        let mut ps: Vec<&Player> = Vec::new();
        let mut i: usize = 0;
        while i < self.players.len()
            invariant
                i <= self.players@.len(),
                ps@.len() == i,
                forall|j: int| 0 <= j < i ==> *(#[trigger] ps@[j]) == self.players@[j],
            decreases self.players@.len() - i,
        {
            ps.push(&self.players[i]);
            i = i + 1;
        }
        ps
    }
}

/// Players who can play rounds still can when one of them leaves.
pub proof fn lemma_ready_remove(ps: Seq<Player>, i: int)
    requires
        players_ready(views(ps)),
        0 <= i < ps.len(),
    ensures
        players_ready(views(ps.remove(i))),
{
    let q = ps.remove(i);
    let ids = player_ids(views(ps));
    assert forall|k: int| 0 <= k < q.len() implies (#[trigger] views(q)[k]).cards.len() == 0 by {
        if k < i {
            assert(q[k] == ps[k]);
            assert(views(ps)[k] == ps[k]@);
        } else {
            assert(q[k] == ps[k + 1]);
            assert(views(ps)[k + 1] == ps[k + 1]@);
        }
    }
    assert forall|a: int, b: int| 0 <= a < b < q.len() implies player_ids(views(q))[a] != player_ids(views(q))[b] by {
        let ia = if a < i { a } else { a + 1 };
        let ib = if b < i { b } else { b + 1 };
        assert(q[a] == ps[ia]);
        assert(q[b] == ps[ib]);
        assert(player_ids(views(q))[a] == ids[ia]);
        assert(player_ids(views(q))[b] == ids[ib]);
    }
}

/// Players who can play rounds still can when the last takes the seat of one who leaves.
pub proof fn lemma_ready_swap_remove(ps: Seq<Player>, i: int)
    requires
        players_ready(views(ps)),
        0 <= i < ps.len(),
    ensures
        players_ready(views(ps.update(i, ps.last()).drop_last())),
{
    let q = ps.update(i, ps.last()).drop_last();
    let n = ps.len() - 1;
    let ids = player_ids(views(ps));
    assert forall|k: int| 0 <= k < q.len() implies (#[trigger] views(q)[k]).cards.len() == 0 by {
        if k == i {
            assert(q[k] == ps[n]);
            assert(views(ps)[n] == ps[n]@);
        } else {
            assert(q[k] == ps[k]);
            assert(views(ps)[k] == ps[k]@);
        }
    }
    assert forall|a: int, b: int| 0 <= a < b < q.len() implies player_ids(views(q))[a] != player_ids(views(q))[b] by {
        let ia = if a == i { n } else { a };
        let ib = if b == i { n } else { b };
        assert(q[a] == ps[ia]);
        assert(q[b] == ps[ib]);
        assert(player_ids(views(q))[a] == ids[ia]);
        assert(player_ids(views(q))[b] == ids[ib]);
    }
}

/// Players who can play rounds still can when one with a new account and no cards joins.
pub proof fn lemma_ready_push(ps: Seq<Player>, p: Player)
    requires
        players_ready(views(ps)),
        seat_of(views(ps), p@.account_id) is None,
        p@.cards.len() == 0,
    ensures
        players_ready(views(ps.push(p))),
{
    let q = ps.push(p);
    let n = ps.len() as int;
    let ids = player_ids(views(ps));
    assert forall|k: int| 0 <= k < q.len() implies (#[trigger] views(q)[k]).cards.len() == 0 by {
        if k < n {
            assert(views(ps)[k] == ps[k]@);
        }
    }
    assert forall|a: int, b: int| 0 <= a < b < q.len() implies player_ids(views(q))[a] != player_ids(views(q))[b] by {
        assert(player_ids(views(q))[a] == q[a]@.account_id);
        assert(player_ids(views(q))[b] == q[b]@.account_id);
        if b == n {
            assert(views(ps)[a].account_id != p@.account_id);
        } else {
            assert(player_ids(views(q))[a] == ids[a]);
            assert(player_ids(views(q))[b] == ids[b]);
        }
    }
}

/// A player who is added to a game and then removed from it leaves the game's players as
/// they were: the new player sits last, so no one changes seat.
pub proof fn lemma_add_then_remove(ps: Seq<Player>, p: Player)
    requires
        seat_of(views(ps), p@.account_id) is None,
    ensures
        seat_of(views(ps.push(p)), p@.account_id) == Some(ps.len() as int),
        ({
            let q = ps.push(p);
            q.update(ps.len() as int, q.last()).drop_last() == ps
        }),
{
    let q = ps.push(p);
    let vq = views(q);
    let n = ps.len() as int;
    assert(vq[n] == p@);
    assert forall|j: int| 0 <= j < n implies (#[trigger] vq[j]).account_id != p@.account_id by {
        assert(vq[j] == views(ps)[j]);
    }
    assert(exists|i: int| 0 <= i < vq.len() && (#[trigger] vq[i]).account_id == p@.account_id);
    let k = choose|i: int| 0 <= i < vq.len() && (#[trigger] vq[i]).account_id == p@.account_id && forall|j: int|
        0 <= j < i ==> (#[trigger] vq[j]).account_id != p@.account_id;
    assert(k == n) by {
        if k < n {
            assert(vq[k].account_id != p@.account_id);
        }
    }
    assert(q.update(n, q.last()).drop_last() =~= ps);
}

} // verus!
