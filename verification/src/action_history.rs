use vstd::prelude::*;

use crate::action::Action;
use crate::player::{Player, PlayerView};

verus! {

/// A player's action: the player who acted, and what they did.
pub struct PlayerAction<'a> {
    player: &'a Player,
    action: Action,
}

impl<'a> View for PlayerAction<'a> {
    type V = (PlayerView, Action);

    closed spec fn view(&self) -> (PlayerView, Action) {
        (self.player@, self.action)
    }
}

impl<'a> PlayerAction<'a> {
    /// The action `action` of `player`.
    pub fn new(player: &'a Player, action: Action) -> (pa: PlayerAction<'a>)
        ensures
            pa@ == (player@, action),
    {
        PlayerAction { player, action }
    }

    /// The player who acted.
    pub fn player(&self) -> (p: &'a Player)
        ensures
            p@ == self@.0,
    {
        self.player
    }

    /// What the player did.
    pub fn action(&self) -> (a: Action)
        ensures
            a == self@.1,
    {
        self.action
    }
}

/// The players of the actions `h`, each once, in the order of their first action; a player
/// is known by their account.
pub open spec fn acting_players(h: Seq<(PlayerView, Action)>) -> Seq<PlayerView>
    decreases h.len(),
{
    if h.len() == 0 {
        Seq::empty()
    } else {
        let r = acting_players(h.drop_last());
        if exists|k: int| 0 <= k < r.len() && (#[trigger] r[k]).account_id == h.last().0.account_id {
            r
        } else {
            r.push(h.last().0)
        }
    }
}

/// The player with the account `id` folded among the actions `h`.
pub open spec fn folded_among(h: Seq<(PlayerView, Action)>, id: u128) -> bool {
    exists|k: int| 0 <= k < h.len() && (#[trigger] h[k]).0.account_id == id && h[k].1 == Action::Fold
}

/// The amount that an action stakes in total, for the actions that stake money (ante, bet,
/// raise, all in), and 0 for the others.
pub open spec fn staked(a: Action) -> nat {
    match a {
        Action::Ante(x) => x as nat,
        Action::Bet(x) => x as nat,
        Action::Raise(x) => x as nat,
        Action::AllIn(x) => x as nat,
        _ => 0,
    }
}

/// The largest amount staked by the actions `h` (0 when there is none).
pub open spec fn largest_stake(h: Seq<(PlayerView, Action)>) -> nat
    decreases h.len(),
{
    if h.len() == 0 {
        0
    } else {
        let m = largest_stake(h.drop_last());
        let x = staked(h.last().1);
        if x > m { x } else { m }
    }
}

/// A log of the players' actions, first to last, with the checks that game rules make of it
/// (whether a player has folded, how much is bet).
pub struct ActionHistory<'a> {
    player_actions: Vec<PlayerAction<'a>>,
}

impl<'a> View for ActionHistory<'a> {
    type V = Seq<(PlayerView, Action)>;

    closed spec fn view(&self) -> Seq<(PlayerView, Action)> {
        self.player_actions@.map_values(|pa: PlayerAction<'a>| pa@)
    }
}

impl<'a> ActionHistory<'a> {
    /// A new, empty history.
    pub fn new() -> (h: ActionHistory<'a>)
        ensures
            h@ == Seq::<(PlayerView, Action)>::empty(),
    {
        let h = ActionHistory { player_actions: Vec::new() };
        assert(h@ =~= Seq::<(PlayerView, Action)>::empty());
        h
    }

    /// Adds an action at the end of the history.
    pub fn push(&mut self, player_action: PlayerAction<'a>)
        ensures
            final(self)@ == old(self)@.push(player_action@),
    {
        self.player_actions.push(player_action);
        assert(self@ =~= old(self)@.push(player_action@));
    }

    /// The players found in the history, each once, in the order of their first action.
    pub fn players(&self) -> (ps: Vec<&'a Player>)
        ensures
            ps@.map_values(|p: &'a Player| p@) == acting_players(self@),
    {
        let ghost h = self@;
        let mut ps: Vec<&'a Player> = Vec::new();
        let mut i: usize = 0;
        assert(h.subrange(0, 0) =~= Seq::<(PlayerView, Action)>::empty());
        assert(ps@.map_values(|p: &'a Player| p@) =~= Seq::<PlayerView>::empty());
        while i < self.player_actions.len()
            invariant
                i <= self.player_actions@.len(),
                h == self@,
                h.len() == self.player_actions@.len(),
                ps@.map_values(|p: &'a Player| p@) == acting_players(h.subrange(0, i as int)),
            decreases self.player_actions@.len() - i,
        {
            let p = self.player_actions[i].player();
            let ghost before = ps@.map_values(|q: &'a Player| q@);
            let mut found = false;
            let mut k: usize = 0;
            while k < ps.len()
                invariant
                    k <= ps@.len(),
                    before == ps@.map_values(|q: &'a Player| q@),
                    found <==> exists|j: int| 0 <= j < k && (#[trigger] before[j]).account_id == p@.account_id,
                decreases ps@.len() - k,
            {
                assert(before[k as int] == ps@[k as int]@);
                if ps[k].account_id() == p.account_id() {
                    found = true;
                }
                k = k + 1;
            }
            proof {
                assert(h.subrange(0, i + 1).drop_last() =~= h.subrange(0, i as int));
                assert(h.subrange(0, i + 1).last() == h[i as int]);
                assert(h[i as int] == self.player_actions@[i as int]@);
            }
            if !found {
                ps.push(p);
                assert(ps@.map_values(|q: &'a Player| q@) =~= before.push(p@));
            }
            i = i + 1;
        }
        assert(h.subrange(0, h.len() as int) =~= h);
        ps
    }

    /// Whether the player (known by their account) has folded in the history: false when
    /// they are not in it or have not folded.
    pub fn player_has_folded(&self, player: &Player) -> (r: bool)
        ensures
            r == folded_among(self@, player@.account_id),
    {
        let ghost h = self@;
        let id = player.account_id();
        let mut i: usize = 0;
        while i < self.player_actions.len()
            invariant
                i <= self.player_actions@.len(),
                h == self@,
                h.len() == self.player_actions@.len(),
                id == player@.account_id,
                forall|k: int| 0 <= k < i ==> !((#[trigger] h[k]).0.account_id == id && h[k].1 == Action::Fold),
            decreases self.player_actions@.len() - i,
        {
            let pa = &self.player_actions[i];
            assert(h[i as int] == pa@);
            if pa.player().account_id() == id && matches!(pa.action(), Action::Fold) {
                return true;
            }
            i = i + 1;
        }
        false
    }

    /// The current bet amount: the largest amount that an ante, bet, raise or all in of the
    /// history stakes in total, as 32 bits.
    pub fn current_bet_amount(&self) -> (b: u32)
        ensures
            b == largest_stake(self@) as u32,
    {
        let ghost h = self@;
        let mut bet_amount: usize = 0;
        let mut i: usize = 0;
        assert(h.subrange(0, 0) =~= Seq::<(PlayerView, Action)>::empty());
        while i < self.player_actions.len()
            invariant
                i <= self.player_actions@.len(),
                h == self@,
                h.len() == self.player_actions@.len(),
                bet_amount as nat == largest_stake(h.subrange(0, i as int)),
            decreases self.player_actions@.len() - i,
        {
            let a = self.player_actions[i].action();
            proof {
                assert(h.subrange(0, i + 1).drop_last() =~= h.subrange(0, i as int));
                assert(h.subrange(0, i + 1).last() == h[i as int]);
                assert(h[i as int] == self.player_actions@[i as int]@);
            }
            let x: usize = match a {
                Action::Ante(x) => x,
                Action::Bet(x) => x,
                Action::Raise(x) => x,
                Action::AllIn(x) => x,
                _ => 0,
            };
            if x > bet_amount {
                bet_amount = x;
            }
            i = i + 1;
        }
        assert(h.subrange(0, h.len() as int) =~= h);
        #[verifier::truncate]
        (bet_amount as u32)
    }

    /// The whole history, first to last.
    pub fn get_history(&self) -> (h: &Vec<PlayerAction<'a>>)
        ensures
            h@.map_values(|pa: PlayerAction<'a>| pa@) == self@,
    {
        &self.player_actions
    }
}

} // verus!
