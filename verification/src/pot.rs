use vstd::prelude::*;

use crate::action::Action;
use crate::card::Card;
use crate::player::Player;

mod stakes;
mod divide;

pub use stakes::{
    Stakes, keys_distinct, has_player, index_of, stake_of, set_stake, total, largest, ids_of,
    lemma_index_of, lemma_total_update, lemma_total_bounds, lemma_total_prefix, lemma_set_stake,
};
use divide::{
    smallest_nonzero, order_winners, order_first_unfolded, pay_all, lemma_chunk, lemma_step_total,
    lemma_fuel, lemma_round_pay,
};
pub use divide::{
    POT_CAP, min_nonzero, chunk, contributors, step_rem, can_win, winners_of, pot_winners,
    first_unfolded_in, first_unfolded, pay_each, round_pay, divide_rounds, spec_divide,
    settle, settlement_turns, zero_stakes,
    lemma_folded_win_nothing, lemma_payout_bounded, order_view, named_in, others_folded,
    named_once_per_group, lemma_sole_survivor_takes_all, lemma_zero_stakes, lemma_first_ids_distinct,
};

verus! {

/// One turn of the pot's history: who acted, what they did, in which phase, with which hand.
pub type Turn = (u128, Action, usize, Vec<Card>);

/// A turn as a mathematical value.
pub type TurnView = (u128, Action, usize, Seq<Card>);

/// The view of a turn.
pub open spec fn turn_view(t: Turn) -> TurnView {
    (t.0, t.1, t.2, t.3@)
}

/// The players of the history, each once, in the order they first acted.
pub open spec fn first_ids(h: Seq<TurnView>) -> Seq<u128>
    decreases h.len(),
{
    if h.len() == 0 {
        Seq::empty()
    } else {
        let r = first_ids(h.drop_last());
        if r.contains(h.last().0) {
            r
        } else {
            r.push(h.last().0)
        }
    }
}

/// Player `id` acted in the history.
pub open spec fn acted(h: Seq<TurnView>, id: u128) -> bool {
    exists|i: int| 0 <= i < h.len() && (#[trigger] h[i]).0 == id
}

/// Player `id` folded in the history.
pub open spec fn folded_in(h: Seq<TurnView>, id: u128) -> bool {
    exists|i: int| 0 <= i < h.len() && (#[trigger] h[i]).0 == id && h[i].1 == Action::Fold
}

/// Sum of the stakes of the players `ids`.
pub open spec fn stake_sum(ids: Seq<u128>, e: Seq<(u128, usize)>) -> nat
    decreases ids.len(),
{
    if ids.len() == 0 {
        0
    } else {
        stake_sum(ids.drop_last(), e) + stake_of(e, ids.last())
    }
}

/// How many of the players `ids` folded in the history.
pub open spec fn count_folded(ids: Seq<u128>, h: Seq<TurnView>) -> nat
    decreases ids.len(),
{
    if ids.len() == 0 {
        0
    } else {
        count_folded(ids.drop_last(), h) + (if folded_in(h, ids.last()) { 1nat } else { 0nat })
    }
}

/// What the pot is: the history of turns and the stakes.
pub struct PotView {
    pub history: Seq<TurnView>,
    pub stakes: Seq<(u128, usize)>,
}

/// Pot: keeps track of the moves players made during a round, and of the current stakes
/// of the players. The stakes are updated each time a turn is played and added to the
/// history. The turns must follow the rules of the game; the pot checks little itself.
pub struct Pot {
    history: Vec<Turn>,
    stakes: Stakes,
}

impl View for Pot {
    type V = PotView;

    closed spec fn view(&self) -> PotView {
        PotView { history: self.history@.map_values(|t: Turn| turn_view(t)), stakes: self.stakes@ }
    }
}

/// The pot is consistent: every player appears once in the stakes, everyone who acted has
/// stakes, and everyone with a stake has acted.
pub open spec fn pot_wf(p: PotView) -> bool {
    &&& keys_distinct(p.stakes)
    &&& forall|i: int| 0 <= i < p.history.len() ==> has_player(p.stakes, (#[trigger] p.history[i]).0)
    &&& forall|j: int| 0 <= j < p.stakes.len() && (#[trigger] p.stakes[j]).1 > 0 ==> acted(p.history, p.stakes[j].0)
}

/// A money action together with the total stake it names.
pub open spec fn money_amount(a: Action) -> Option<usize> {
    match a {
        Action::Ante(x) => Some(x),
        Action::Bet(x) => Some(x),
        Action::Raise(x) => Some(x),
        Action::AllIn(x) => Some(x),
        _ => None,
    }
}

/// The stakes after a turn of player `id`: a money action sets the player's stake to the
/// amount it names, a call sets it to the largest stake, other actions change nothing.
pub open spec fn stakes_after(e: Seq<(u128, usize)>, id: u128, a: Action) -> Seq<(u128, usize)> {
    match money_amount(a) {
        Some(x) => set_stake(e, id, x),
        None => if a == Action::Call {
            set_stake(e, id, largest(e) as usize)
        } else {
            e
        },
    }
}

/// A turn of player `id` is allowed: the player has stakes, and a money action or a call
/// raises the player's stake.
pub open spec fn turn_allowed(e: Seq<(u128, usize)>, id: u128, a: Action) -> bool {
    &&& has_player(e, id)
    &&& money_amount(a) matches Some(x) ==> x > stake_of(e, id)
    &&& a == Action::Call ==> largest(e) > stake_of(e, id)
}

impl Pot {
    /// The pot is consistent.
    pub open spec fn wf(&self) -> bool {
        pot_wf(self@)
    }

    /// Initialize pot with list of player IDs: no turns, every player with a stake of 0.
    pub fn new_uuids(players: &Vec<u128>) -> (pot: Pot)
        ensures
            pot.wf(),
            pot@.history == Seq::<TurnView>::empty(),
            forall|id: u128| has_player(pot@.stakes, id) <==> players@.contains(id),
            forall|i: int| 0 <= i < pot@.stakes.len() ==> (#[trigger] pot@.stakes[i]).1 == 0,
            players@.no_duplicates() ==> pot@.stakes == zero_stakes(players@),
    {
        let pot = Pot { history: Vec::new(), stakes: Stakes::new_uuids(players) };
        assert(pot@.history =~= Seq::<TurnView>::empty());
        pot
    }

    /// Initialize pot with list of players: no turns, every player with a stake of 0.
    pub fn new(players: &Vec<&Player>) -> (pot: Pot)
        ensures
            pot.wf(),
            pot@.history == Seq::<TurnView>::empty(),
            forall|id: u128|
                has_player(pot@.stakes, id) <==> exists|i: int|
                    0 <= i < players@.len() && (#[trigger] players@[i])@.account_id == id,
            forall|i: int| 0 <= i < pot@.stakes.len() ==> (#[trigger] pot@.stakes[i]).1 == 0,
    {
        let pot = Pot { history: Vec::new(), stakes: Stakes::new(players) };
        assert(pot@.history =~= Seq::<TurnView>::empty());
        pot
    }

    /// Gets the current call amount: the largest stake.
    pub fn get_call_amount(&self) -> (amount: usize)
        ensures
            amount == largest(self@.stakes),
    {
        self.stakes.max()
    }

    /// Reset pot to be ready for a new round.
    pub fn clear(&mut self, players: &Vec<&Player>)
        ensures
            final(self).wf(),
            final(self)@.history == Seq::<TurnView>::empty(),
            forall|id: u128|
                has_player(final(self)@.stakes, id) <==> exists|i: int|
                    0 <= i < players@.len() && (#[trigger] players@[i])@.account_id == id,
            forall|i: int| 0 <= i < final(self)@.stakes.len() ==> (#[trigger] final(self)@.stakes[i]).1 == 0,
    {
        *self = Pot::new(players);
    }

    /// Reset pot to be ready for a new round.
    pub fn clear_uuids(&mut self, player_ids: &Vec<u128>)
        ensures
            final(self).wf(),
            final(self)@.history == Seq::<TurnView>::empty(),
            forall|id: u128| has_player(final(self)@.stakes, id) <==> player_ids@.contains(id),
            forall|i: int| 0 <= i < final(self)@.stakes.len() ==> (#[trigger] final(self)@.stakes[i]).1 == 0,
            player_ids@.no_duplicates() ==> final(self)@.stakes == zero_stakes(player_ids@),
    {
        *self = Pot::new_uuids(player_ids);
    }

    /// Get the stake for a particular player in the pot (0 for a player without stakes).
    pub fn get_player_stake(&self, player_id: &u128) -> (s: usize)
        requires
            self.wf(),
        ensures
            s == stake_of(self@.stakes, *player_id),
    {
        match self.stakes.get_opt(player_id) {
            Some(x) => x,
            None => 0,
        }
    }

    /// Checks if a particular player has folded in the pot's history.
    pub fn player_has_folded(&self, player_id: &u128) -> (r: bool)
        ensures
            r == folded_in(self@.history, *player_id),
    {
        let mut i: usize = 0;
        while i < self.history.len()
            invariant
                i <= self.history@.len(),
                forall|j: int| 0 <= j < i ==> !((#[trigger] self@.history[j]).0 == *player_id
                    && self@.history[j].1 == Action::Fold),
            decreases self.history@.len() - i,
        {
            let turn = &self.history[i];
            if turn.0 == *player_id && turn.1 == Action::Fold {
                assert(self@.history[i as int] == turn_view(self.history@[i as int]));
                return true;
            }
            assert(self@.history[i as int] == turn_view(self.history@[i as int]));
            i = i + 1;
        }
        false
    }

    /// Returns the IDs of the players in the pot's history, in the order they first acted.
    pub fn get_player_ids(&self) -> (ids: Vec<u128>)
        ensures
            ids@ == first_ids(self@.history),
            forall|id: u128| ids@.contains(id) <==> acted(self@.history, id),
    {
        let mut ids: Vec<u128> = Vec::new();
        let mut i: usize = 0;
        let ghost h = self@.history;
        assert(h.subrange(0, 0) =~= Seq::<TurnView>::empty());
        while i < self.history.len()
            invariant
                i <= self.history@.len(),
                h == self@.history,
                h.len() == self.history@.len(),
                ids@ == first_ids(h.subrange(0, i as int)),
                forall|id: u128| ids@.contains(id) <==> acted(h.subrange(0, i as int), id),
            decreases self.history@.len() - i,
        {
            let id = self.history[i].0;
            assert(h[i as int].0 == id);
            let ghost prefix = h.subrange(0, i + 1);
            assert(prefix.drop_last() =~= h.subrange(0, i as int));
            let mut found = false;
            let mut k: usize = 0;
            while k < ids.len()
                invariant
                    k <= ids@.len(),
                    found <==> ids@.subrange(0, k as int).contains(id),
                decreases ids@.len() - k,
            {
                if ids[k] == id {
                    found = true;
                }
                k = k + 1;
                proof {
                    let s0 = ids@.subrange(0, k - 1);
                    let s1 = ids@.subrange(0, k as int);
                    assert(s1 =~= s0.push(ids@[k - 1]));
                    if s0.contains(id) {
                        let q = choose|q: int| 0 <= q < s0.len() && s0[q] == id;
                        assert(s1[q] == id);
                    }
                    if s1.contains(id) {
                        let q = choose|q: int| 0 <= q < s1.len() && s1[q] == id;
                        if q < k - 1 {
                            assert(s0[q] == id);
                        }
                    }
                    if ids@[k - 1] == id {
                        assert(s1[k - 1] == id);
                    }
                }
            }
            assert(ids@.subrange(0, ids@.len() as int) =~= ids@);
            let ghost before = ids@;
            if !found {
                ids.push(id);
            }
            i = i + 1;
            proof {
                assert forall|x: u128| ids@.contains(x) <==> acted(prefix, x) by {
                    if acted(prefix, x) {
                        let j = choose|j: int| 0 <= j < prefix.len() && (#[trigger] prefix[j]).0 == x;
                        if j < prefix.len() - 1 {
                            assert(prefix.drop_last()[j].0 == x);
                            assert(before.contains(x));
                            let q = choose|q: int| 0 <= q < before.len() && before[q] == x;
                            assert(ids@[q] == x);
                        } else {
                            if found {
                                assert(before.contains(x));
                                let q = choose|q: int| 0 <= q < before.len() && before[q] == x;
                                assert(ids@[q] == x);
                            } else {
                                assert(ids@[ids@.len() - 1] == x);
                            }
                        }
                    }
                    if ids@.contains(x) {
                        let q = choose|q: int| 0 <= q < ids@.len() && ids@[q] == x;
                        if q < before.len() {
                            assert(before.contains(x));
                            let j = choose|j: int| 0 <= j < prefix.drop_last().len() && (#[trigger] prefix.drop_last()[j]).0 == x;
                            assert(prefix[j].0 == x);
                        } else {
                            assert(prefix[prefix.len() - 1].0 == x);
                        }
                    }
                }
            }
        }
        assert(h.subrange(0, h.len() as int) =~= h);
        ids
    }

    /// Get the total stake of the players in the pot's history, cut to 32 bits.
    pub fn get_total_stake(&self) -> (t: u32)
        requires
            self.wf(),
            stake_sum(first_ids(self@.history), self@.stakes) <= usize::MAX,
        ensures
            t == stake_sum(first_ids(self@.history), self@.stakes) as u32,
    {
        let ids = self.get_player_ids();
        let mut total_stake: usize = 0;
        let mut i: usize = 0;
        assert(ids@.subrange(0, 0) =~= Seq::<u128>::empty());
        while i < ids.len()
            invariant
                self.wf(),
                i <= ids@.len(),
                ids@ == first_ids(self@.history),
                stake_sum(ids@, self@.stakes) <= usize::MAX,
                total_stake == stake_sum(ids@.subrange(0, i as int), self@.stakes),
            decreases ids@.len() - i,
        {
            assert(ids@.subrange(0, i + 1).drop_last() =~= ids@.subrange(0, i as int));
            proof {
                lemma_stake_sum_prefix(ids@, self@.stakes, i + 1);
            }
            total_stake = total_stake + self.get_player_stake(&ids[i]);
            i = i + 1;
        }
        assert(ids@.subrange(0, ids@.len() as int) =~= ids@);
        total_stake as u32
    }

    /// Counts the players in the pot's history who have folded.
    pub fn number_of_players_folded(&self) -> (n: u32)
        requires
            first_ids(self@.history).len() <= u32::MAX,
        ensures
            n == count_folded(first_ids(self@.history), self@.history),
    {
        let ids = self.get_player_ids();
        let mut count: u32 = 0;
        let mut i: usize = 0;
        assert(ids@.subrange(0, 0) =~= Seq::<u128>::empty());
        while i < ids.len()
            invariant
                i <= ids@.len(),
                ids@.len() <= u32::MAX,
                ids@ == first_ids(self@.history),
                count == count_folded(ids@.subrange(0, i as int), self@.history),
                count <= i,
            decreases ids@.len() - i,
        {
            assert(ids@.subrange(0, i + 1).drop_last() =~= ids@.subrange(0, i as int));
            if self.player_has_folded(&ids[i]) {
                count = count + 1;
            }
            i = i + 1;
        }
        assert(ids@.subrange(0, ids@.len() as int) =~= ids@);
        count
    }

    /// Adds a turn to the pot's history. A money action (ante, bet, raise, all in) sets the
    /// player's stake to the amount it names, a call sets it to the call amount.
    pub fn add_turn(&mut self, player_id: &u128, action: Action, phase_num: usize, hand: Vec<Card>)
        requires
            old(self).wf(),
            turn_allowed(old(self)@.stakes, *player_id, action),
        ensures
            final(self).wf(),
            final(self)@.history == old(self)@.history.push((*player_id, action, phase_num, hand@)),
            final(self)@.stakes == stakes_after(old(self)@.stakes, *player_id, action),
    {
        let ghost old_view = self@;
        proof {
            lemma_set_stake(old_view.stakes, *player_id, 0);
        }
        match action {
            Action::Ante(amount) | Action::Bet(amount) | Action::Raise(amount) | Action::AllIn(amount) => {
                self.stakes.set(*player_id, amount);
                proof {
                    lemma_set_stake(old_view.stakes, *player_id, amount);
                }
            },
            Action::Call => {
                let call_amount = self.get_call_amount();
                self.stakes.set(*player_id, call_amount);
                proof {
                    lemma_set_stake(old_view.stakes, *player_id, call_amount);
                }
            },
            _ => {},
        }
        let ghost mid = self.history@;
        self.history.push((*player_id, action, phase_num, hand));
        proof {
            assert(self@.history =~= old_view.history.push((*player_id, action, phase_num, hand@)));
            let h = self@.history;
            let e = self@.stakes;
            assert forall|i: int| 0 <= i < h.len() implies has_player(e, (#[trigger] h[i]).0) by {
                if i < h.len() - 1 {
                    assert(h[i] == old_view.history[i]);
                    assert(has_player(old_view.stakes, h[i].0));
                }
            }
            assert forall|j: int| 0 <= j < e.len() && (#[trigger] e[j]).1 > 0 implies acted(h, e[j].0) by {
                if e[j].0 == *player_id {
                    assert(h[h.len() - 1].0 == *player_id);
                } else {
                    lemma_index_of(e, j);
                    assert(stake_of(e, e[j].0) == stake_of(old_view.stakes, e[j].0));
                    let k = index_of(old_view.stakes, e[j].0);
                    lemma_index_of(old_view.stakes, k);
                    assert(acted(old_view.history, e[j].0));
                    let q = choose|q: int| 0 <= q < old_view.history.len() && (#[trigger] old_view.history[q]).0 == e[j].0;
                    assert(h[q] == old_view.history[q]);
                }
            }
        }
    }

    /// Divides the winnings of the pot, side pots included, along the winning order: a list
    /// of groups of player IDs, the best placed group first; the players of a group tie.
    ///
    /// Each round takes the smallest non-zero remaining stake from every player who still
    /// has stakes; that pot is shared equally (rounding down) by the players of the first
    /// group who have not folded and whose remaining stake covers it; when there are none,
    /// the first player of the order who has not folded takes it. The winnings of each player
    /// are returned, and a turn recording what each player with stakes won or lost is added
    /// to the history, in a phase of its own.
    pub fn divide_winnings(&mut self, winning_order: Vec<Vec<u128>>) -> (winnings: Stakes)
        requires
            old(self).wf(),
            total(old(self)@.stakes) <= usize::MAX,
            forall|i: int, j: int|
                0 <= i < winning_order@.len() && 0 <= j < winning_order@[i]@.len() && !folded_in(
                    old(self)@.history,
                    #[trigger] winning_order@[i]@[j],
                ) ==> has_player(old(self)@.stakes, winning_order@[i]@[j]),
            old(self)@.history.len() > 0 ==> old(self)@.history.last().2 < usize::MAX,
        ensures
            final(self).wf(),
            winnings.wf(),
            winnings@ == spec_divide(old(self)@, order_view(winning_order@)),
            final(self)@.stakes == old(self)@.stakes,
            final(self)@.history == old(self)@.history + settlement_turns(
                old(self)@.stakes,
                winnings@,
                next_phase(old(self)@.history),
            ),
    {
        let ghost p0 = self@;
        let ghost h = p0.history;
        let ghost order = order_view(winning_order@);
        let ghost target = spec_divide(p0, order);
        let mut rem = self.stakes.clone();
        let ids = self.get_player_ids();
        proof {
            lemma_first_ids_distinct(h);
            lemma_zero_stakes(ids@);
        }
        let mut winnings = Stakes::new_uuids(&ids);
        while rem.sum() != 0
            invariant
                self@ == p0,
                pot_wf(p0),
                order == order_view(winning_order@),
                target == spec_divide(p0, order),
                h == p0.history,
                rem.wf(),
                winnings.wf(),
                total(p0.stakes) <= usize::MAX,
                total(winnings@) + total(rem@) <= total(p0.stakes),
                divide_rounds(total(rem@), winnings@, order, h, rem@) == target,
            decreases total(rem@),
        {
            let ghost r0 = rem@;
            let ghost w0 = winnings@;
            proof {
                lemma_chunk(r0);
                lemma_step_total(r0, chunk(r0));
                lemma_total_bounds(r0);
            }
            let c64 = smallest_nonzero(&rem);
            let ghost j = choose|j: int| 0 <= j < r0.len() && (#[trigger] r0[j]).1 > 0;
            assert(c64 <= r0[j].1);
            let c = c64 as usize;
            let ws = order_winners(&winning_order, self, &rem, c);
            let fallback = order_first_unfolded(&winning_order, self);
            let pot = rem.take_from_each(c);
            proof {
                assert(pot >= 1) by (nonlinear_arith)
                    requires
                        pot == c * contributors(r0),
                        c >= 1,
                        contributors(r0) >= 1,
                ;
                lemma_round_pay(w0, order, h, r0);
            }
            if ws.len() > 0 {
                let share = pot / ws.len();
                let ghost n = ws@.len() as int;
                assert(share * n <= pot) by (nonlinear_arith)
                    requires
                        share == pot as int / n,
                        n > 0,
                ;
                pay_all(&mut winnings, &ws, share);
            } else {
                match fallback {
                    Some(p) => {
                        let single: Vec<u128> = vec![p];
                        assert(single@ =~= seq![p]);
                        pay_all(&mut winnings, &single, pot);
                    },
                    None => {},
                }
            }
            proof {
                assert(winnings@ == round_pay(w0, order, h, r0));
                lemma_fuel((total(r0) - 1) as nat, winnings@, order, h, rem@);
            }
        }
        proof {
            assert(winnings@ == target);
        }
        let next: usize = if self.history.len() == 0 {
            0
        } else {
            assert(self@.history.last() == turn_view(self.history@[self.history@.len() - 1]));
            self.history[self.history.len() - 1].2 + 1
        };
        let e0 = self.stakes.clone();
        let ghost turns = settlement_turns(p0.stakes, winnings@, next_phase(h));
        let mut k: usize = 0;
        assert(h + turns.subrange(0, 0) =~= h);
        while k < e0.entries().len()
            invariant
                k <= p0.stakes.len(),
                e0@ == p0.stakes,
                pot_wf(p0),
                winnings.wf(),
                next == next_phase(h),
                h == p0.history,
                turns == settlement_turns(p0.stakes, winnings@, next_phase(h)),
                self@.stakes == p0.stakes,
                self@.history == h + turns.subrange(0, k as int),
                self.wf(),
            decreases p0.stakes.len() - k,
        {
            let (id, staked) = e0.entries()[k];
            let won: usize = match winnings.get_opt(&id) {
                Some(x) => x,
                None => 0,
            };
            let action = if won > staked {
                Action::Win(won - staked)
            } else {
                Action::Lose(staked - won)
            };
            let ghost before = self@;
            let turn: Turn = (id, action, next, Vec::new());
            self.history.push(turn);
            proof {
                assert(turn_view(turn) == turns[k as int]);
                assert(self@.history =~= before.history.push(turn_view(turn)));
                assert(self@.history =~= h + turns.subrange(0, k + 1));
                let hh = self@.history;
                let e = self@.stakes;
                assert(e[k as int].0 == id);
                assert forall|i: int| 0 <= i < hh.len() implies has_player(e, (#[trigger] hh[i]).0) by {
                    if i < hh.len() - 1 {
                        assert(hh[i] == before.history[i]);
                    }
                }
                assert forall|j: int| 0 <= j < e.len() && (#[trigger] e[j]).1 > 0 implies acted(hh, e[j].0) by {
                    assert(acted(before.history, e[j].0));
                    let q = choose|q: int| 0 <= q < before.history.len() && (#[trigger] before.history[q]).0 == e[j].0;
                    assert(hh[q] == before.history[q]);
                }
            }
            k = k + 1;
        }
        assert(turns.subrange(0, turns.len() as int) =~= turns);
        winnings
    }

    /// The turns of the pot's history, in order.
    pub fn history(&self) -> (h: &Vec<Turn>)
        ensures
            h@.map_values(|t: Turn| turn_view(t)) == self@.history,
    {
        &self.history
    }

    /// The stakes of the players.
    pub fn stakes(&self) -> (s: &Stakes)
        ensures
            s@ == self@.stakes,
            s.wf() <== self.wf(),
    {
        &self.stakes
    }
}

/// The phase that follows the last turn of the history (0 for an empty history).
pub open spec fn next_phase(h: Seq<TurnView>) -> usize {
    if h.len() == 0 {
        0
    } else {
        (h.last().2 + 1) as usize
    }
}

/// The players listed by `first_ids` are exactly those who acted.
pub proof fn lemma_first_ids_acted(h: Seq<TurnView>)
    ensures
        forall|x: u128| #[trigger] first_ids(h).contains(x) <==> acted(h, x),
    decreases h.len(),
{
    if h.len() > 0 {
        let h1 = h.drop_last();
        lemma_first_ids_acted(h1);
        let r = first_ids(h1);
        assert forall|x: u128| #[trigger] first_ids(h).contains(x) <==> acted(h, x) by {
            if acted(h1, x) {
                let j = choose|j: int| 0 <= j < h1.len() && (#[trigger] h1[j]).0 == x;
                assert(h[j].0 == x);
            }
            if acted(h, x) && x != h.last().0 {
                let j = choose|j: int| 0 <= j < h.len() && (#[trigger] h[j]).0 == x;
                if j < h.len() - 1 {
                    assert(h1[j].0 == x);
                } else {
                    assert(h[h.len() - 1] == h.last());
                }
            }
            if !r.contains(h.last().0) {
                let r2 = r.push(h.last().0);
                if r2.contains(x) && x != h.last().0 {
                    let q = choose|q: int| 0 <= q < r2.len() && r2[q] == x;
                    assert(r[q] == x);
                }
                if r.contains(x) {
                    let q = choose|q: int| 0 <= q < r.len() && r[q] == x;
                    assert(r2[q] == x);
                }
                assert(r2[r.len() as int] == h.last().0);
                assert(h[h.len() - 1] == h.last());
            }
            if x == h.last().0 {
                assert(h[h.len() - 1] == h.last());
            }
        }
    }
}

/// In a consistent pot, no more players have acted than there are players with stakes.
pub proof fn lemma_first_ids_bounded(p: PotView)
    requires
        pot_wf(p),
    ensures
        first_ids(p.history).len() <= p.stakes.len(),
{
    let f = first_ids(p.history);
    let k = ids_of(p.stakes);
    lemma_first_ids_distinct(p.history);
    lemma_first_ids_acted(p.history);
    f.unique_seq_to_set();
    k.lemma_cardinality_of_set();
    assert forall|x: u128| f.to_set().contains(x) implies k.to_set().contains(x) by {
        assert(f.contains(x));
        let i = choose|i: int| 0 <= i < p.history.len() && (#[trigger] p.history[i]).0 == x;
        assert(has_player(p.stakes, p.history[i].0));
        let j = choose|j: int| 0 <= j < p.stakes.len() && (#[trigger] p.stakes[j]).0 == x;
        assert(k[j] == x);
    }
    vstd::set_lib::lemma_len_subset(f.to_set(), k.to_set());
}

/// Stakes that agree on the players `ids` give them the same sum.
pub proof fn lemma_stake_sum_agree(ids: Seq<u128>, e1: Seq<(u128, usize)>, e2: Seq<(u128, usize)>)
    requires
        forall|x: u128| ids.contains(x) ==> stake_of(e1, x) == stake_of(e2, x),
    ensures
        stake_sum(ids, e1) == stake_sum(ids, e2),
    decreases ids.len(),
{
    if ids.len() > 0 {
        let q = ids.drop_last();
        assert forall|x: u128| q.contains(x) implies stake_of(e1, x) == stake_of(e2, x) by {
            let j = choose|j: int| 0 <= j < q.len() && q[j] == x;
            assert(ids[j] == x);
        }
        lemma_stake_sum_agree(q, e1, e2);
        assert(ids[ids.len() - 1] == ids.last());
    }
}

/// The stakes of distinct players sum to at most the total of all stakes.
pub proof fn lemma_stake_sum_le_total(ids: Seq<u128>, e: Seq<(u128, usize)>)
    requires
        ids.no_duplicates(),
        keys_distinct(e),
    ensures
        stake_sum(ids, e) <= total(e),
    decreases ids.len(),
{
    if ids.len() > 0 {
        let q = ids.drop_last();
        let x = ids.last();
        let e0 = set_stake(e, x, 0);
        lemma_set_stake(e, x, 0);
        assert forall|y: u128| q.contains(y) implies stake_of(e0, y) == stake_of(e, y) by {
            let j = choose|j: int| 0 <= j < q.len() && q[j] == y;
            assert(ids[j] == y);
            assert(ids[ids.len() - 1] == x);
        }
        lemma_stake_sum_agree(q, e, e0);
        lemma_stake_sum_le_total(q, e0);
    }
}

/// The stake sum over a prefix is at most the sum over the whole.
pub proof fn lemma_stake_sum_prefix(ids: Seq<u128>, e: Seq<(u128, usize)>, n: int)
    requires
        0 <= n <= ids.len(),
    ensures
        stake_sum(ids.subrange(0, n), e) <= stake_sum(ids, e),
    decreases ids.len() - n,
{
    if n < ids.len() {
        lemma_stake_sum_prefix(ids, e, n + 1);
        assert(ids.subrange(0, n + 1).drop_last() =~= ids.subrange(0, n));
    } else {
        assert(ids.subrange(0, n) =~= ids);
    }
}

/// There are no more distinct players in a history than turns.
pub proof fn lemma_first_ids_len(h: Seq<TurnView>)
    ensures
        first_ids(h).len() <= h.len(),
    decreases h.len(),
{
    if h.len() > 0 {
        lemma_first_ids_len(h.drop_last());
    }
}

} // verus!
