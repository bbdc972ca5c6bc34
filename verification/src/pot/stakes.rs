use vstd::prelude::*;

use crate::player::Player;
use super::divide::{zero_stakes, step_rem, contributors, lemma_step_total};

verus! {

/// Entries of player IDs and stakes: no two entries name the same player.
pub open spec fn keys_distinct(e: Seq<(u128, usize)>) -> bool {
    forall|i: int, j: int| 0 <= i < j < e.len() ==> (#[trigger] e[i]).0 != (#[trigger] e[j]).0
}

/// Some entry names player `id`.
pub open spec fn has_player(e: Seq<(u128, usize)>, id: u128) -> bool {
    exists|i: int| 0 <= i < e.len() && (#[trigger] e[i]).0 == id
}

/// The position of the entry of player `id` (-1 when there is none).
pub open spec fn index_of(e: Seq<(u128, usize)>, id: u128) -> int {
    if has_player(e, id) {
        choose|i: int| 0 <= i < e.len() && (#[trigger] e[i]).0 == id
    } else {
        -1
    }
}

/// The stake of player `id` (0 when there is no entry for the player).
pub open spec fn stake_of(e: Seq<(u128, usize)>, id: u128) -> nat {
    if has_player(e, id) {
        e[index_of(e, id)].1 as nat
    } else {
        0
    }
}

/// The entries after setting the stake of player `id` to `amount`: the player's entry is
/// changed in place, or a new entry is added at the end.
pub open spec fn set_stake(e: Seq<(u128, usize)>, id: u128, amount: usize) -> Seq<(u128, usize)> {
    if has_player(e, id) {
        e.update(index_of(e, id), (id, amount))
    } else {
        e.push((id, amount))
    }
}

/// The sum of all stakes.
pub open spec fn total(e: Seq<(u128, usize)>) -> nat
    decreases e.len(),
{
    if e.len() == 0 {
        0
    } else {
        total(e.drop_last()) + e.last().1 as nat
    }
}

/// The largest stake (0 when there are none).
pub open spec fn largest(e: Seq<(u128, usize)>) -> nat
    decreases e.len(),
{
    if e.len() == 0 {
        0
    } else if largest(e.drop_last()) >= e.last().1 {
        largest(e.drop_last())
    } else {
        e.last().1 as nat
    }
}

/// The player IDs of the entries, in order.
pub open spec fn ids_of(e: Seq<(u128, usize)>) -> Seq<u128> {
    e.map_values(|x: (u128, usize)| x.0)
}

/// With distinct entries, the entry found for a player is the one at the given position.
pub proof fn lemma_index_of(e: Seq<(u128, usize)>, i: int)
    requires
        keys_distinct(e),
        0 <= i < e.len(),
    ensures
        has_player(e, e[i].0),
        index_of(e, e[i].0) == i,
        stake_of(e, e[i].0) == e[i].1,
{
    assert(has_player(e, e[i].0));
}

/// Changing one stake changes the sum by the difference.
pub proof fn lemma_total_update(e: Seq<(u128, usize)>, i: int, x: (u128, usize))
    requires
        0 <= i < e.len(),
    ensures
        total(e.update(i, x)) + e[i].1 == total(e) + x.1,
    decreases e.len(),
{
    if i < e.len() - 1 {
        lemma_total_update(e.drop_last(), i, x);
        assert(e.update(i, x).drop_last() =~= e.drop_last().update(i, x));
    } else {
        assert(e.update(i, x).drop_last() =~= e.drop_last());
    }
}

/// No single stake exceeds the sum; the largest stake is one of the stakes, and no stake
/// exceeds it.
pub proof fn lemma_total_bounds(e: Seq<(u128, usize)>)
    ensures
        forall|i: int| 0 <= i < e.len() ==> (#[trigger] e[i]).1 <= total(e),
        forall|i: int| 0 <= i < e.len() ==> (#[trigger] e[i]).1 <= largest(e),
        e.len() == 0 ==> largest(e) == 0,
        e.len() > 0 ==> exists|i: int| 0 <= i < e.len() && (#[trigger] e[i]).1 == largest(e),
    decreases e.len(),
{
    if e.len() > 0 {
        lemma_total_bounds(e.drop_last());
        assert forall|i: int| 0 <= i < e.len() implies (#[trigger] e[i]).1 <= total(e) && e[i].1
            <= largest(e) by {
            if i < e.len() - 1 {
                assert(e[i] == e.drop_last()[i]);
            }
        }
        if largest(e.drop_last()) >= e.last().1 && e.len() > 1 {
            let j = choose|j: int| 0 <= j < e.drop_last().len() && (#[trigger] e.drop_last()[j]).1
                == largest(e.drop_last());
            assert(e[j] == e.drop_last()[j]);
        } else {
            assert(e[e.len() - 1] == e.last());
        }
    }
}

/// What setting a stake does: the player gets an entry with the new amount, every other
/// player keeps their entry and stake, the entries stay distinct, and the sum changes by the
/// difference.
pub proof fn lemma_set_stake(e: Seq<(u128, usize)>, id: u128, amount: usize)
    requires
        keys_distinct(e),
    ensures
        keys_distinct(set_stake(e, id, amount)),
        forall|x: u128| #[trigger] has_player(set_stake(e, id, amount), x) <==> (has_player(e, x) || x == id),
        stake_of(set_stake(e, id, amount), id) == amount,
        forall|x: u128| x != id ==> #[trigger] stake_of(set_stake(e, id, amount), x) == stake_of(e, x),
        total(set_stake(e, id, amount)) + stake_of(e, id) == total(e) + amount,
        ids_of(set_stake(e, id, amount)) == (if has_player(e, id) {
            ids_of(e)
        } else {
            ids_of(e).push(id)
        }),
{
    let t = set_stake(e, id, amount);
    if has_player(e, id) {
        let k = index_of(e, id);
        lemma_index_of(e, k);
        lemma_total_update(e, k, (id, amount));
        assert(ids_of(t) =~= ids_of(e));
        assert forall|x: u128| #[trigger] has_player(t, x) <==> (has_player(e, x) || x == id) by {
            if has_player(e, x) {
                let j = choose|j: int| 0 <= j < e.len() && (#[trigger] e[j]).0 == x;
                assert(t[j].0 == x);
            }
            if has_player(t, x) {
                let j = choose|j: int| 0 <= j < t.len() && (#[trigger] t[j]).0 == x;
                if j != k {
                    assert(e[j].0 == x);
                }
            }
        }
        lemma_index_of(t, k);
        assert forall|x: u128| x != id implies #[trigger] stake_of(t, x) == stake_of(e, x) by {
            if has_player(e, x) {
                let j = index_of(e, x);
                lemma_index_of(e, j);
                lemma_index_of(t, j);
            }
        }
    } else {
        assert(t.drop_last() =~= e);
        assert(ids_of(t) =~= ids_of(e).push(id));
        assert forall|x: u128| #[trigger] has_player(t, x) <==> (has_player(e, x) || x == id) by {
            if has_player(e, x) {
                let j = choose|j: int| 0 <= j < e.len() && (#[trigger] e[j]).0 == x;
                assert(t[j].0 == x);
            }
            if has_player(t, x) && x != id {
                let j = choose|j: int| 0 <= j < t.len() && (#[trigger] t[j]).0 == x;
                assert(e[j].0 == x);
            }
            if x == id {
                assert(t[e.len() as int].0 == x);
            }
        }
        lemma_index_of(t, e.len() as int);
        assert forall|x: u128| x != id implies #[trigger] stake_of(t, x) == stake_of(e, x) by {
            if has_player(e, x) {
                let j = index_of(e, x);
                lemma_index_of(e, j);
                lemma_index_of(t, j);
            }
        }
    }
}

/// Stakes: the stake of each player in a pot, in the order the players were added.
pub struct Stakes {
    stakes: Vec<(u128, usize)>,
}

impl View for Stakes {
    type V = Seq<(u128, usize)>;

    closed spec fn view(&self) -> Seq<(u128, usize)> {
        self.stakes@
    }
}

impl Stakes {
    /// The entries name distinct players.
    pub open spec fn wf(&self) -> bool {
        keys_distinct(self@)
    }

    /// Stakes of no players.
    pub fn empty() -> (s: Stakes)
        ensures
            s@ == Seq::<(u128, usize)>::empty(),
            s.wf(),
    {
        Stakes { stakes: Vec::new() }
    }

    /// The position of the entry of player `id`, if any.
    pub fn find(&self, id: u128) -> (r: Option<usize>)
        requires
            self.wf(),
        ensures
            r is None <==> !has_player(self@, id),
            r matches Some(i) ==> i == index_of(self@, id) && 0 <= i < self@.len(),
    {
        let mut i: usize = 0;
        while i < self.stakes.len()
            invariant
                i <= self.stakes@.len(),
                self.wf(),
                forall|j: int| 0 <= j < i ==> (#[trigger] self.stakes@[j]).0 != id,
            decreases self.stakes@.len() - i,
        {
            if self.stakes[i].0 == id {
                proof {
                    lemma_index_of(self@, i as int);
                }
                return Some(i);
            }
            i = i + 1;
        }
        None
    }

    /// Constructor with list of players: every player has a stake of 0.
    pub fn new(players: &Vec<&Player>) -> (s: Stakes)
        ensures
            s.wf(),
            forall|id: u128|
                has_player(s@, id) <==> exists|i: int|
                    0 <= i < players@.len() && (#[trigger] players@[i])@.account_id == id,
            forall|i: int| 0 <= i < s@.len() ==> (#[trigger] s@[i]).1 == 0,
    {
        let mut new_stakes = Stakes::empty();
        let mut k: usize = 0;
        while k < players.len()
            invariant
                k <= players@.len(),
                new_stakes.wf(),
                forall|id: u128|
                    has_player(new_stakes@, id) <==> exists|i: int|
                        0 <= i < k && (#[trigger] players@[i])@.account_id == id,
                forall|i: int| 0 <= i < new_stakes@.len() ==> (#[trigger] new_stakes@[i]).1 == 0,
            decreases players@.len() - k,
        {
            let id = players[k].account_id();
            let ghost before = new_stakes@;
            new_stakes.set(id, 0);
            k = k + 1;
            proof {
                lemma_set_stake(before, id, 0);
                assert forall|x: u128|
                    has_player(new_stakes@, x) <==> exists|i: int|
                        0 <= i < k && (#[trigger] players@[i])@.account_id == x by {
                    if x == id {
                        assert(players@[k - 1]@.account_id == x);
                    } else {
                        if has_player(new_stakes@, x) {
                            let j = choose|j: int| 0 <= j < new_stakes@.len() && (#[trigger] new_stakes@[j]).0 == x;
                            assert(before[j].0 == x);
                        }
                        if has_player(before, x) {
                            let j = choose|j: int| 0 <= j < before.len() && (#[trigger] before[j]).0 == x;
                            assert(new_stakes@[j].0 == x);
                        }
                    }
                }
            }
        }
        new_stakes
    }

    /// Constructor with list of player IDs: every player has a stake of 0.
    pub fn new_uuids(players: &Vec<u128>) -> (s: Stakes)
        ensures
            s.wf(),
            forall|id: u128| has_player(s@, id) <==> players@.contains(id),
            forall|i: int| 0 <= i < s@.len() ==> (#[trigger] s@[i]).1 == 0,
            players@.no_duplicates() ==> s@ == zero_stakes(players@),
    {
        let mut new_stakes = Stakes::empty();
        let mut k: usize = 0;
        while k < players.len()
            invariant
                k <= players@.len(),
                new_stakes.wf(),
                forall|id: u128| has_player(new_stakes@, id) <==> players@.subrange(0, k as int).contains(id),
                forall|i: int| 0 <= i < new_stakes@.len() ==> (#[trigger] new_stakes@[i]).1 == 0,
                players@.no_duplicates() ==> new_stakes@ == zero_stakes(players@.subrange(0, k as int)),
            decreases players@.len() - k,
        {
            let id = players[k];
            let ghost before = new_stakes@;
            new_stakes.set(id, 0);
            k = k + 1;
            proof {
                lemma_set_stake(before, id, 0);
                if players@.no_duplicates() {
                    let q = players@.subrange(0, k - 1);
                    if q.contains(id) {
                        let j = choose|j: int| 0 <= j < q.len() && q[j] == id;
                        assert(players@[j] == players@[k - 1]);
                    }
                    assert(!has_player(before, id));
                    assert(zero_stakes(players@.subrange(0, k as int)) =~= zero_stakes(q).push((id, 0usize)));
                }
                assert forall|x: u128|
                    has_player(new_stakes@, x) <==> players@.subrange(0, k as int).contains(x) by {
                    let p = players@.subrange(0, k as int);
                    let q = players@.subrange(0, k - 1);
                    assert(p =~= q.push(id));
                    if x == id {
                        assert(p[k - 1] == id);
                    } else if p.contains(x) {
                        let j = choose|j: int| 0 <= j < p.len() && p[j] == x;
                        assert(q[j] == x);
                    } else if q.contains(x) {
                        let j = choose|j: int| 0 <= j < q.len() && q[j] == x;
                        assert(p[j] == x);
                    }
                }
            }
        }
        assert(players@.subrange(0, players@.len() as int) =~= players@);
        new_stakes
    }

    /// Adds the amount (which may be negative) onto the player's stakes; a player without
    /// an entry counts as having 0. The sum must not be negative.
    pub fn add(&mut self, player_id: u128, amount: i64)
        requires
            old(self).wf(),
            stake_of(old(self)@, player_id) <= i64::MAX,
            0 <= stake_of(old(self)@, player_id) + amount <= i64::MAX,
        ensures
            final(self).wf(),
            final(self)@ == set_stake(
                old(self)@,
                player_id,
                (stake_of(old(self)@, player_id) + amount) as usize,
            ),
    {
        let current_stake: i64 = match self.find(player_id) {
            Some(i) => self.stakes[i].1 as i64,
            None => 0,
        };
        let new_stake: usize = (current_stake + amount) as usize;
        self.set(player_id, new_stake);
    }

    /// Sets the player's stake.
    pub fn set(&mut self, player_id: u128, amount: usize)
        requires
            old(self).wf(),
        ensures
            final(self).wf(),
            final(self)@ == set_stake(old(self)@, player_id, amount),
    {
        match self.find(player_id) {
            Some(i) => {
                self.stakes.set(i, (player_id, amount));
            },
            None => {
                self.stakes.push((player_id, amount));
            },
        }
    }

    /// The player's stake; the player must have an entry.
    pub fn get(&self, player_id: &u128) -> (s: usize)
        requires
            self.wf(),
            has_player(self@, *player_id),
        ensures
            s == stake_of(self@, *player_id),
    {
        match self.find(*player_id) {
            Some(i) => self.stakes[i].1,
            None => 0,
        }
    }

    /// The player's stake, or None when the player has no entry.
    pub fn get_opt(&self, player_id: &u128) -> (s: Option<usize>)
        requires
            self.wf(),
        ensures
            s is None <==> !has_player(self@, *player_id),
            s matches Some(x) ==> x == stake_of(self@, *player_id),
    {
        match self.find(*player_id) {
            Some(i) => Some(self.stakes[i].1),
            None => None,
        }
    }

    /// Gets the maximum stake (0 when there are no entries).
    pub fn max(&self) -> (m: usize)
        ensures
            m == largest(self@),
    {
        let mut acc: usize = 0;
        let mut i: usize = 0;
        assert(self@.subrange(0, 0) =~= Seq::<(u128, usize)>::empty());
        while i < self.stakes.len()
            invariant
                i <= self.stakes@.len(),
                acc == largest(self.stakes@.subrange(0, i as int)),
            decreases self.stakes@.len() - i,
        {
            let x = self.stakes[i].1;
            assert(self.stakes@.subrange(0, i + 1).drop_last() =~= self.stakes@.subrange(0, i as int));
            if x > acc {
                acc = x;
            }
            i = i + 1;
        }
        assert(self.stakes@.subrange(0, self.stakes@.len() as int) =~= self.stakes@);
        acc
    }

    /// Calculates the sum of all stakes.
    pub fn sum(&self) -> (s: usize)
        requires
            total(self@) <= usize::MAX,
        ensures
            s == total(self@),
    {
        let mut acc: usize = 0;
        let mut i: usize = 0;
        assert(self@.subrange(0, 0) =~= Seq::<(u128, usize)>::empty());
        while i < self.stakes.len()
            invariant
                i <= self.stakes@.len(),
                total(self.stakes@) <= usize::MAX,
                acc == total(self.stakes@.subrange(0, i as int)),
            decreases self.stakes@.len() - i,
        {
            assert(self.stakes@.subrange(0, i + 1).drop_last() =~= self.stakes@.subrange(0, i as int));
            proof {
                lemma_total_prefix(self.stakes@, i + 1);
            }
            acc = acc + self.stakes[i].1;
            i = i + 1;
        }
        assert(self.stakes@.subrange(0, self.stakes@.len() as int) =~= self.stakes@);
        acc
    }

    /// Gets the player IDs with stakes, in order.
    pub fn get_player_ids(&self) -> (ids: Vec<u128>)
        ensures
            ids@ == ids_of(self@),
    {
        let mut ids: Vec<u128> = Vec::new();
        let mut i: usize = 0;
        while i < self.stakes.len()
            invariant
                i <= self.stakes@.len(),
                ids@ == ids_of(self.stakes@.subrange(0, i as int)),
            decreases self.stakes@.len() - i,
        {
            ids.push(self.stakes[i].0);
            i = i + 1;
            assert(ids@ =~= ids_of(self.stakes@.subrange(0, i as int)));
        }
        assert(self.stakes@.subrange(0, self.stakes@.len() as int) =~= self.stakes@);
        ids
    }

    /// Takes `c` from every player with a non-zero stake, and returns how much was taken.
    pub(crate) fn take_from_each(&mut self, c: usize) -> (taken: usize)
        requires
            old(self).wf(),
            total(old(self)@) <= usize::MAX,
            forall|i: int| 0 <= i < old(self)@.len() && (#[trigger] old(self)@[i]).1 > 0 ==> c <= old(self)@[i].1,
        ensures
            final(self).wf(),
            final(self)@ == step_rem(old(self)@, c as nat),
            taken == c * contributors(old(self)@),
    {
        let ghost e = self@;
        let ghost st = step_rem(e, c as nat);
        proof {
            lemma_step_total(e, c as nat);
        }
        let mut taken: usize = 0;
        let mut i: usize = 0;
        assert(e.subrange(0, 0) =~= Seq::<(u128, usize)>::empty());
        while i < self.stakes.len()
            invariant
                i <= e.len(),
                self.stakes@.len() == e.len(),
                total(e) <= usize::MAX,
                st == step_rem(e, c as nat),
                st.len() == e.len(),
                forall|j: int| 0 <= j < e.len() ==> (#[trigger] st[j]).0 == e[j].0,
                forall|j: int| 0 <= j < e.len() && (#[trigger] e[j]).1 > 0 ==> c <= e[j].1,
                forall|j: int| 0 <= j < i ==> (#[trigger] self.stakes@[j]) == st[j],
                forall|j: int| i <= j < e.len() ==> (#[trigger] self.stakes@[j]) == e[j],
                taken == c * contributors(e.subrange(0, i as int)),
            decreases e.len() - i,
        {
            let (id, x) = self.stakes[i];
            let ghost pre = e.subrange(0, i as int);
            let ghost pre1 = e.subrange(0, i + 1);
            proof {
                assert(pre1.drop_last() =~= pre);
                assert(pre1.last() == e[i as int]);
                assert forall|j: int| 0 <= j < pre1.len() && (#[trigger] pre1[j]).1 > 0 implies c <= pre1[j].1 by {
                    assert(pre1[j] == e[j]);
                }
                lemma_step_total(pre1, c as nat);
                lemma_total_prefix(e, i + 1);
            }
            if x > 0 {
                proof {
                    let m = contributors(pre);
                    assert(contributors(pre1) == m + 1);
                    assert(c * (m + 1) == c * m + c) by (nonlinear_arith);
                    assert(c * contributors(pre1) <= total(pre1));
                }
                self.stakes.set(i, (id, x - c));
                taken = taken + c;
            } else {
                assert(contributors(pre1) == contributors(pre));
            }
            i = i + 1;
        }
        assert(self.stakes@ =~= st);
        assert(e.subrange(0, e.len() as int) =~= e);
        taken
    }

    /// The entries: player IDs with their stakes, in order.
    pub fn entries(&self) -> (e: &Vec<(u128, usize)>)
        ensures
            e@ == self@,
    {
        &self.stakes
    }
}

/// The sum over a prefix is at most the sum over the whole.
pub proof fn lemma_total_prefix(e: Seq<(u128, usize)>, n: int)
    requires
        0 <= n <= e.len(),
    ensures
        total(e.subrange(0, n)) <= total(e),
    decreases e.len() - n,
{
    if n < e.len() {
        lemma_total_prefix(e, n + 1);
        assert(e.subrange(0, n + 1).drop_last() =~= e.subrange(0, n));
    } else {
        assert(e.subrange(0, n) =~= e);
    }
}

impl Clone for Stakes {
    fn clone(&self) -> (s: Stakes)
        ensures
            s@ == self@,
    {
        let mut stakes: Vec<(u128, usize)> = Vec::new();
        let mut i: usize = 0;
        while i < self.stakes.len()
            invariant
                i <= self.stakes@.len(),
                stakes@ == self.stakes@.subrange(0, i as int),
            decreases self.stakes@.len() - i,
        {
            let (id, amount) = self.stakes[i];
            stakes.push((id, amount));
            i = i + 1;
            assert(stakes@ =~= self.stakes@.subrange(0, i as int));
        }
        assert(self.stakes@.subrange(0, self.stakes@.len() as int) =~= self.stakes@);
        Stakes { stakes }
    }
}

} // verus!
