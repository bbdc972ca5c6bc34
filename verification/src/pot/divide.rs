use vstd::prelude::*;

use crate::action::Action;
use super::stakes::{
    keys_distinct, has_player, index_of, stake_of, set_stake, total,
    lemma_set_stake,
};
use super::{TurnView, PotView, Pot, first_ids, folded_in};
use super::stakes::Stakes;

verus! {

/// The largest amount a single pot is made of.
pub const POT_CAP: u64 = 10000000000u64;

/// The smallest non-zero remaining stake, but at most `POT_CAP`.
pub open spec fn min_nonzero(rem: Seq<(u128, usize)>) -> nat
    decreases rem.len(),
{
    if rem.len() == 0 {
        POT_CAP as nat
    } else {
        let m = min_nonzero(rem.drop_last());
        let x = rem.last().1;
        if x != 0 && x < m {
            x as nat
        } else {
            m
        }
    }
}

/// The amount each player still in the pot puts into the next pot.
pub open spec fn chunk(rem: Seq<(u128, usize)>) -> nat {
    min_nonzero(rem)
}

/// How many players still have a non-zero remaining stake.
pub open spec fn contributors(rem: Seq<(u128, usize)>) -> nat
    decreases rem.len(),
{
    if rem.len() == 0 {
        0
    } else {
        contributors(rem.drop_last()) + (if rem.last().1 > 0 { 1nat } else { 0nat })
    }
}

/// The remaining stakes after every player with a non-zero remaining stake has put `c`
/// into the pot.
pub open spec fn step_rem(rem: Seq<(u128, usize)>, c: nat) -> Seq<(u128, usize)> {
    rem.map_values(|x: (u128, usize)| if x.1 > 0 { (x.0, (x.1 - c) as usize) } else { x })
}

/// Player `p` may win the current pot: they have not folded, and their remaining stake
/// covers it.
pub open spec fn can_win(h: Seq<TurnView>, rem: Seq<(u128, usize)>, c: nat, p: u128) -> bool {
    !folded_in(h, p) && stake_of(rem, p) >= c
}

/// The players of group `g` who may win the current pot, in order.
pub open spec fn winners_of(g: Seq<u128>, h: Seq<TurnView>, rem: Seq<(u128, usize)>, c: nat) -> Seq<u128>
    decreases g.len(),
{
    if g.len() == 0 {
        Seq::empty()
    } else {
        let w = winners_of(g.drop_last(), h, rem, c);
        if can_win(h, rem, c, g.last()) {
            w.push(g.last())
        } else {
            w
        }
    }
}

/// The winners of the current pot: those who may win it in the first group of the winning
/// order that has any.
pub open spec fn pot_winners(order: Seq<Seq<u128>>, h: Seq<TurnView>, rem: Seq<(u128, usize)>, c: nat) -> Seq<u128>
    decreases order.len(),
{
    if order.len() == 0 {
        Seq::empty()
    } else {
        let w = pot_winners(order.drop_last(), h, rem, c);
        if w.len() > 0 {
            w
        } else {
            winners_of(order.last(), h, rem, c)
        }
    }
}

/// The first player of group `g` who has not folded.
pub open spec fn first_unfolded_in(g: Seq<u128>, h: Seq<TurnView>) -> Option<u128>
    decreases g.len(),
{
    if g.len() == 0 {
        None
    } else {
        match first_unfolded_in(g.drop_last(), h) {
            Some(p) => Some(p),
            None => if !folded_in(h, g.last()) {
                Some(g.last())
            } else {
                None
            },
        }
    }
}

/// The first player of the winning order who has not folded.
pub open spec fn first_unfolded(order: Seq<Seq<u128>>, h: Seq<TurnView>) -> Option<u128>
    decreases order.len(),
{
    if order.len() == 0 {
        None
    } else {
        match first_unfolded(order.drop_last(), h) {
            Some(p) => Some(p),
            None => first_unfolded_in(order.last(), h),
        }
    }
}

/// The winnings after each of the players `ps` (once per occurrence) is paid `a`.
pub open spec fn pay_each(w: Seq<(u128, usize)>, ps: Seq<u128>, a: nat) -> Seq<(u128, usize)>
    decreases ps.len(),
{
    if ps.len() == 0 {
        w
    } else {
        let w1 = pay_each(w, ps.drop_last(), a);
        set_stake(w1, ps.last(), (stake_of(w1, ps.last()) + a) as usize)
    }
}

/// The winnings after the current pot is paid out: the pot holds `chunk` from every player
/// still in; its winners share it equally (rounding down); when nobody may win it, it goes
/// to the first player of the winning order who has not folded, and when there is no such
/// player it goes to nobody.
pub open spec fn round_pay(
    w: Seq<(u128, usize)>,
    order: Seq<Seq<u128>>,
    h: Seq<TurnView>,
    rem: Seq<(u128, usize)>,
) -> Seq<(u128, usize)> {
    let c = chunk(rem);
    let pot = c * contributors(rem);
    let ws = pot_winners(order, h, rem, c);
    if ws.len() > 0 {
        pay_each(w, ws, pot / ws.len())
    } else {
        match first_unfolded(order, h) {
            Some(p) => pay_each(w, seq![p], pot),
            None => w,
        }
    }
}

/// The winnings after paying out pots until no stake remains (or `fuel` pots were paid).
pub open spec fn divide_rounds(
    fuel: nat,
    w: Seq<(u128, usize)>,
    order: Seq<Seq<u128>>,
    h: Seq<TurnView>,
    rem: Seq<(u128, usize)>,
) -> Seq<(u128, usize)>
    decreases fuel,
{
    if fuel == 0 || total(rem) == 0 {
        w
    } else {
        divide_rounds((fuel - 1) as nat, round_pay(w, order, h, rem), order, h, step_rem(rem, chunk(rem)))
    }
}

/// Entries of stake 0 for the players `ids`.
pub open spec fn zero_stakes(ids: Seq<u128>) -> Seq<(u128, usize)> {
    ids.map_values(|id: u128| (id, 0usize))
}

/// The winnings of each player when the pot is divided along the winning order: the
/// stakes are split into a main pot and side pots, each won by the best placed players
/// who still cover it.
pub open spec fn spec_divide(p: PotView, order: Seq<Seq<u128>>) -> Seq<(u128, usize)> {
    divide_rounds(total(p.stakes), zero_stakes(first_ids(p.history)), order, p.history, p.stakes)
}

/// The book keeping action for a net change of a player's balance.
pub open spec fn settle(net: int) -> Action {
    if net > 0 {
        Action::Win(net as usize)
    } else {
        Action::Lose((-net) as usize)
    }
}

/// The turns that record, for every player with stakes, what they won or lost.
pub open spec fn settlement_turns(e0: Seq<(u128, usize)>, w: Seq<(u128, usize)>, phase: usize) -> Seq<TurnView> {
    Seq::new(
        e0.len(),
        |k: int| (e0[k].0, settle(stake_of(w, e0[k].0) - e0[k].1), phase, Seq::<crate::card::Card>::empty()),
    )
}

// ---------------------------------------------------------------------------
// Facts about one round
// ---------------------------------------------------------------------------

/// The chunk is at most every non-zero remaining stake, and at least 1 when some stake remains.
pub proof fn lemma_chunk(rem: Seq<(u128, usize)>)
    ensures
        chunk(rem) <= POT_CAP,
        forall|i: int| 0 <= i < rem.len() && (#[trigger] rem[i]).1 > 0 ==> chunk(rem) <= rem[i].1,
        total(rem) > 0 ==> chunk(rem) >= 1 && contributors(rem) >= 1,
        contributors(rem) <= rem.len(),
        chunk(rem) >= 1,
        total(rem) > 0 ==> exists|i: int| 0 <= i < rem.len() && (#[trigger] rem[i]).1 > 0,
    decreases rem.len(),
{
    if rem.len() > 0 {
        lemma_chunk(rem.drop_last());
        if total(rem) > 0 {
            if rem.last().1 > 0 {
                assert(rem[rem.len() - 1].1 > 0);
            } else {
                let j = choose|j: int| 0 <= j < rem.drop_last().len() && (#[trigger] rem.drop_last()[j]).1 > 0;
                assert(rem[j] == rem.drop_last()[j]);
            }
        }
        assert forall|i: int| 0 <= i < rem.len() && (#[trigger] rem[i]).1 > 0 implies chunk(rem) <= rem[i].1 by {
            if i < rem.len() - 1 {
                assert(rem[i] == rem.drop_last()[i]);
            }
        }
    }
}

/// Taking the chunk from every contributor lowers the total by the pot.
pub proof fn lemma_step_total(rem: Seq<(u128, usize)>, c: nat)
    requires
        forall|i: int| 0 <= i < rem.len() && (#[trigger] rem[i]).1 > 0 ==> c <= rem[i].1,
    ensures
        total(step_rem(rem, c)) + c * contributors(rem) == total(rem),
        step_rem(rem, c).len() == rem.len(),
        forall|i: int| 0 <= i < rem.len() ==> (#[trigger] step_rem(rem, c)[i]).0 == rem[i].0,
        forall|i: int| 0 <= i < rem.len() ==> (#[trigger] step_rem(rem, c)[i]).1 <= rem[i].1,
    decreases rem.len(),
{
    if rem.len() > 0 {
        assert forall|i: int| 0 <= i < rem.drop_last().len() && (#[trigger] rem.drop_last()[i]).1 > 0 implies c
            <= rem.drop_last()[i].1 by {
            assert(rem.drop_last()[i] == rem[i]);
        }
        lemma_step_total(rem.drop_last(), c);
        assert(step_rem(rem, c).drop_last() =~= step_rem(rem.drop_last(), c));
        assert(rem[rem.len() - 1] == rem.last());
        let m = contributors(rem.drop_last());
        let st = step_rem(rem, c);
        assert(st.last() == st[rem.len() - 1]);
        assert(total(st) == total(st.drop_last()) + st.last().1);
        if rem.last().1 > 0 {
            assert(c <= rem[rem.len() - 1].1);
            assert(st.last().1 == rem.last().1 - c);
            assert(contributors(rem) == m + 1);
            assert(c * (m + 1) == c * m + c) by (nonlinear_arith);
        } else {
            assert(contributors(rem) == m);
            assert(st.last().1 == rem.last().1);
        }
    } else {
        let z = contributors(rem);
        assert(z == 0);
        assert(c * z == 0) by (nonlinear_arith)
            requires
                z == 0,
        ;
        assert(step_rem(rem, c).len() == 0);
    }
}

/// With enough fuel, the result of dividing does not depend on the fuel.
pub proof fn lemma_fuel(
    fuel: nat,
    w: Seq<(u128, usize)>,
    order: Seq<Seq<u128>>,
    h: Seq<TurnView>,
    rem: Seq<(u128, usize)>,
)
    requires
        fuel >= total(rem),
    ensures
        divide_rounds(fuel, w, order, h, rem) == divide_rounds(total(rem), w, order, h, rem),
    decreases fuel,
{
    if fuel > 0 && total(rem) > 0 {
        let c = chunk(rem);
        lemma_chunk(rem);
        lemma_step_total(rem, c);
        assert(c * contributors(rem) >= 1) by (nonlinear_arith)
            requires
                c >= 1,
                contributors(rem) >= 1,
        ;
        let rem2 = step_rem(rem, c);
        let w2 = round_pay(w, order, h, rem);
        lemma_fuel((fuel - 1) as nat, w2, order, h, rem2);
        lemma_fuel((total(rem) - 1) as nat, w2, order, h, rem2);
    }
}

/// Paying players changes the stake of nobody else, keeps the entries distinct, and adds
/// the payments to the total.
pub proof fn lemma_pay_each(w: Seq<(u128, usize)>, ps: Seq<u128>, a: nat)
    requires
        keys_distinct(w),
        total(w) + a * ps.len() <= usize::MAX,
    ensures
        keys_distinct(pay_each(w, ps, a)),
        total(pay_each(w, ps, a)) == total(w) + a * ps.len(),
        forall|x: u128| !ps.contains(x) ==> #[trigger] stake_of(pay_each(w, ps, a), x) == stake_of(w, x),
        forall|x: u128| #[trigger] has_player(pay_each(w, ps, a), x) <==> (has_player(w, x) || ps.contains(x)),
    decreases ps.len(),
{
    if ps.len() > 0 {
        let q = ps.drop_last();
        assert(a * q.len() <= a * ps.len()) by (nonlinear_arith)
            requires
                q.len() < ps.len(),
        ;
        lemma_pay_each(w, q, a);
        let w1 = pay_each(w, q, a);
        let p = ps.last();
        lemma_index_of_bound(w1, p);
        assert(a * ps.len() == a * q.len() + a) by (nonlinear_arith)
            requires
                ps.len() == q.len() + 1,
        ;
        lemma_set_stake(w1, p, (stake_of(w1, p) + a) as usize);
        assert forall|x: u128| !ps.contains(x) implies #[trigger] stake_of(pay_each(w, ps, a), x) == stake_of(w, x) by {
            assert(!q.contains(x)) by {
                if q.contains(x) {
                    let j = choose|j: int| 0 <= j < q.len() && q[j] == x;
                    assert(ps[j] == x);
                }
            }
            assert(x != p) by {
                assert(ps[ps.len() - 1] == p);
            }
        }
        assert forall|x: u128| #[trigger] has_player(pay_each(w, ps, a), x) <==> (has_player(w, x) || ps.contains(x)) by {
            if q.contains(x) {
                let j = choose|j: int| 0 <= j < q.len() && q[j] == x;
                assert(ps[j] == x);
            }
            if ps.contains(x) && x != p {
                let j = choose|j: int| 0 <= j < ps.len() && ps[j] == x;
                assert(q[j] == x);
            }
            if x == p {
                assert(ps[ps.len() - 1] == p);
            }
        }
    }
}

/// No stake exceeds the total.
pub proof fn lemma_index_of_bound(w: Seq<(u128, usize)>, p: u128)
    ensures
        stake_of(w, p) <= total(w),
{
    super::stakes::lemma_total_bounds(w);
}

/// Entries of stake 0 have stake 0 and total 0; for distinct players they are distinct.
pub proof fn lemma_zero_stakes(ids: Seq<u128>)
    ensures
        total(zero_stakes(ids)) == 0,
        forall|x: u128| #[trigger] stake_of(zero_stakes(ids), x) == 0,
        ids.no_duplicates() ==> keys_distinct(zero_stakes(ids)),
    decreases ids.len(),
{
    let z = zero_stakes(ids);
    if ids.len() > 0 {
        lemma_zero_stakes(ids.drop_last());
        assert(z.drop_last() =~= zero_stakes(ids.drop_last()));
    }
    assert forall|x: u128| #[trigger] stake_of(z, x) == 0 by {
        if has_player(z, x) {
            let i = index_of(z, x);
            assert(z[i].1 == 0);
        }
    }
}

/// The players of a history are listed once each.
pub proof fn lemma_first_ids_distinct(h: Seq<TurnView>)
    ensures
        first_ids(h).no_duplicates(),
    decreases h.len(),
{
    if h.len() > 0 {
        lemma_first_ids_distinct(h.drop_last());
    }
}

/// The winners of a group may all win.
proof fn lemma_winners_of(g: Seq<u128>, h: Seq<TurnView>, rem: Seq<(u128, usize)>, c: nat)
    ensures
        forall|x: u128| #[trigger] winners_of(g, h, rem, c).contains(x) ==> can_win(h, rem, c, x),
    decreases g.len(),
{
    if g.len() > 0 {
        lemma_winners_of(g.drop_last(), h, rem, c);
        let w = winners_of(g.drop_last(), h, rem, c);
        assert forall|x: u128| #[trigger] winners_of(g, h, rem, c).contains(x) implies can_win(h, rem, c, x) by {
            if can_win(h, rem, c, g.last()) {
                let v = w.push(g.last());
                assert(winners_of(g, h, rem, c) == v);
                let j = choose|j: int| 0 <= j < v.len() && v[j] == x;
                if j < w.len() {
                    assert(w[j] == x);
                    assert(w.contains(x));
                }
            } else {
                assert(winners_of(g, h, rem, c) == w);
                assert(w.contains(x));
            }
        }
    }
}

/// The winners of a pot may all win it.
proof fn lemma_pot_winners(order: Seq<Seq<u128>>, h: Seq<TurnView>, rem: Seq<(u128, usize)>, c: nat)
    ensures
        forall|x: u128| #[trigger] pot_winners(order, h, rem, c).contains(x) ==> can_win(h, rem, c, x),
    decreases order.len(),
{
    if order.len() > 0 {
        lemma_pot_winners(order.drop_last(), h, rem, c);
        lemma_winners_of(order.last(), h, rem, c);
        let w = pot_winners(order.drop_last(), h, rem, c);
        assert forall|x: u128| #[trigger] pot_winners(order, h, rem, c).contains(x) implies can_win(h, rem, c, x) by {
            if w.len() > 0 {
                assert(pot_winners(order, h, rem, c) == w);
                assert(w.contains(x));
            } else {
                assert(pot_winners(order, h, rem, c) == winners_of(order.last(), h, rem, c));
                assert(winners_of(order.last(), h, rem, c).contains(x));
            }
        }
    }
}

/// The first player who has not folded has not folded.
proof fn lemma_first_unfolded(order: Seq<Seq<u128>>, h: Seq<TurnView>)
    ensures
        first_unfolded(order, h) matches Some(p) ==> !folded_in(h, p),
    decreases order.len(),
{
    if order.len() > 0 {
        lemma_first_unfolded(order.drop_last(), h);
        lemma_first_unfolded_in(order.last(), h);
    }
}

proof fn lemma_first_unfolded_in(g: Seq<u128>, h: Seq<TurnView>)
    ensures
        first_unfolded_in(g, h) matches Some(p) ==> !folded_in(h, p),
    decreases g.len(),
{
    if g.len() > 0 {
        lemma_first_unfolded_in(g.drop_last(), h);
    }
}

/// One round pays at most the pot, and pays nobody who folded.
pub(crate) proof fn lemma_round_pay(
    w: Seq<(u128, usize)>,
    order: Seq<Seq<u128>>,
    h: Seq<TurnView>,
    rem: Seq<(u128, usize)>,
)
    requires
        keys_distinct(w),
        total(w) + chunk(rem) * contributors(rem) <= usize::MAX,
    ensures
        keys_distinct(round_pay(w, order, h, rem)),
        total(round_pay(w, order, h, rem)) <= total(w) + chunk(rem) * contributors(rem),
        forall|x: u128| folded_in(h, x) ==> #[trigger] stake_of(round_pay(w, order, h, rem), x) == stake_of(w, x),
{
    let c = chunk(rem);
    let pot = c * contributors(rem);
    let ws = pot_winners(order, h, rem, c);
    lemma_pot_winners(order, h, rem, c);
    lemma_first_unfolded(order, h);
    if ws.len() > 0 {
        let a = pot / ws.len();
        assert(a * ws.len() <= pot) by (nonlinear_arith)
            requires
                a == pot / ws.len(),
                ws.len() > 0,
        ;
        lemma_pay_each(w, ws, a);
        assert forall|x: u128| folded_in(h, x) implies #[trigger] stake_of(round_pay(w, order, h, rem), x) == stake_of(w, x) by {
            if ws.contains(x) {
                assert(can_win(h, rem, c, x));
            }
        }
    } else {
        match first_unfolded(order, h) {
            Some(p) => {
                let one = seq![p].len();
                assert(one == 1);
                assert(pot * one == pot) by (nonlinear_arith)
                    requires
                        one == 1,
                ;
                lemma_pay_each(w, seq![p], pot);
                assert forall|x: u128| folded_in(h, x) implies #[trigger] stake_of(round_pay(w, order, h, rem), x) == stake_of(w, x) by {
                    if seq![p].contains(x) {
                        assert(seq![p][0] == p);
                    }
                }
            },
            None => {},
        }
    }
}

/// Dividing keeps money and folded players as the rounds go: what has been paid out plus
/// what remains never exceeds the start, and folded players are never paid.
proof fn lemma_rounds(
    w: Seq<(u128, usize)>,
    order: Seq<Seq<u128>>,
    h: Seq<TurnView>,
    rem: Seq<(u128, usize)>,
    start: nat,
)
    requires
        keys_distinct(w),
        total(w) + total(rem) <= start,
        start <= usize::MAX,
    ensures
        keys_distinct(divide_rounds(total(rem), w, order, h, rem)),
        total(divide_rounds(total(rem), w, order, h, rem)) <= start,
        forall|x: u128| folded_in(h, x) ==> #[trigger] stake_of(divide_rounds(total(rem), w, order, h, rem), x) == stake_of(w, x),
    decreases total(rem),
{
    if total(rem) > 0 {
        let c = chunk(rem);
        lemma_chunk(rem);
        lemma_step_total(rem, c);
        assert(c * contributors(rem) >= 1) by (nonlinear_arith)
            requires
                c >= 1,
                contributors(rem) >= 1,
        ;
        lemma_round_pay(w, order, h, rem);
        let w2 = round_pay(w, order, h, rem);
        let rem2 = step_rem(rem, c);
        lemma_fuel((total(rem) - 1) as nat, w2, order, h, rem2);
        lemma_rounds(w2, order, h, rem2, start);
    }
}

/// Players who folded win nothing when the pot is divided.
pub proof fn lemma_folded_win_nothing(p: PotView, order: Seq<Seq<u128>>, id: u128)
    requires
        total(p.stakes) <= usize::MAX,
        folded_in(p.history, id),
    ensures
        stake_of(spec_divide(p, order), id) == 0,
{
    let ids = first_ids(p.history);
    lemma_first_ids_distinct(p.history);
    lemma_zero_stakes(ids);
    lemma_rounds(zero_stakes(ids), order, p.history, p.stakes, total(p.stakes));
}

/// Dividing the pot pays out no more than the players staked in all, and gives every player
/// one entry.
pub proof fn lemma_payout_bounded(p: PotView, order: Seq<Seq<u128>>)
    requires
        total(p.stakes) <= usize::MAX,
    ensures
        total(spec_divide(p, order)) <= total(p.stakes),
        keys_distinct(spec_divide(p, order)),
{
    let ids = first_ids(p.history);
    lemma_first_ids_distinct(p.history);
    lemma_zero_stakes(ids);
    lemma_rounds(zero_stakes(ids), order, p.history, p.stakes, total(p.stakes));
}

/// Player `id` is named somewhere in the winning order.
pub open spec fn named_in(order: Seq<Seq<u128>>, id: u128) -> bool {
    exists|i: int, j: int| 0 <= i < order.len() && 0 <= j < order[i].len() && #[trigger] order[i][j] == id
}

/// Everybody named in the winning order other than `id` has folded.
pub open spec fn others_folded(order: Seq<Seq<u128>>, h: Seq<TurnView>, id: u128) -> bool {
    forall|i: int, j: int|
        0 <= i < order.len() && 0 <= j < order[i].len() && #[trigger] order[i][j] != id ==> folded_in(h, order[i][j])
}

/// No group of the winning order names `id` twice.
pub open spec fn named_once_per_group(order: Seq<Seq<u128>>, id: u128) -> bool {
    forall|i: int, j1: int, j2: int|
        0 <= i < order.len() && 0 <= j1 < j2 < order[i].len() ==> !(#[trigger] order[i][j1] == id
            && #[trigger] order[i][j2] == id)
}

proof fn lemma_sole_group(g: Seq<u128>, h: Seq<TurnView>, rem: Seq<(u128, usize)>, c: nat, id: u128)
    requires
        forall|j: int| 0 <= j < g.len() && #[trigger] g[j] != id ==> folded_in(h, g[j]),
        forall|j1: int, j2: int| 0 <= j1 < j2 < g.len() ==> !(#[trigger] g[j1] == id && #[trigger] g[j2] == id),
        !folded_in(h, id),
    ensures
        winners_of(g, h, rem, c) == (if g.contains(id) && can_win(h, rem, c, id) {
            seq![id]
        } else {
            Seq::<u128>::empty()
        }),
        first_unfolded_in(g, h) == (if g.contains(id) {
            Some(id)
        } else {
            None::<u128>
        }),
    decreases g.len(),
{
    if g.len() > 0 {
        let g1 = g.drop_last();
        assert forall|j: int| 0 <= j < g1.len() && #[trigger] g1[j] != id implies folded_in(h, g1[j]) by {
            assert(g[j] == g1[j]);
        }
        assert forall|j1: int, j2: int| 0 <= j1 < j2 < g1.len() implies !(#[trigger] g1[j1] == id
            && #[trigger] g1[j2] == id) by {
            assert(g[j1] == g1[j1] && g[j2] == g1[j2]);
        }
        lemma_sole_group(g1, h, rem, c, id);
        assert(g[g.len() - 1] == g.last());
        if g.last() == id {
            if g1.contains(id) {
                let j = choose|j: int| 0 <= j < g1.len() && g1[j] == id;
                assert(g[j] == id);
            }
            assert(g.contains(id));
            assert(seq![id] =~= Seq::<u128>::empty().push(id));
        } else {
            assert(folded_in(h, g[g.len() - 1]));
            if g.contains(id) {
                let j = choose|j: int| 0 <= j < g.len() && g[j] == id;
                assert(g1[j] == id);
            }
            if g1.contains(id) {
                let j = choose|j: int| 0 <= j < g1.len() && g1[j] == id;
                assert(g[j] == id);
            }
        }
    }
}

proof fn lemma_sole_order(order: Seq<Seq<u128>>, h: Seq<TurnView>, rem: Seq<(u128, usize)>, c: nat, id: u128)
    requires
        others_folded(order, h, id),
        named_once_per_group(order, id),
        !folded_in(h, id),
    ensures
        pot_winners(order, h, rem, c) == (if named_in(order, id) && can_win(h, rem, c, id) {
            seq![id]
        } else {
            Seq::<u128>::empty()
        }),
        first_unfolded(order, h) == (if named_in(order, id) {
            Some(id)
        } else {
            None::<u128>
        }),
    decreases order.len(),
{
    if order.len() > 0 {
        let o1 = order.drop_last();
        let g = order.last();
        let n = order.len() - 1;
        assert(order[n] == g);
        assert forall|i: int, j: int| 0 <= i < o1.len() && 0 <= j < o1[i].len() && #[trigger] o1[i][j] != id implies folded_in(h, o1[i][j]) by {
            assert(order[i] == o1[i]);
        }
        assert forall|i: int, j1: int, j2: int| 0 <= i < o1.len() && 0 <= j1 < j2 < o1[i].len() implies !(#[trigger] o1[i][j1] == id
            && #[trigger] o1[i][j2] == id) by {
            assert(order[i] == o1[i]);
        }
        lemma_sole_order(o1, h, rem, c, id);
        assert forall|j: int| 0 <= j < g.len() && #[trigger] g[j] != id implies folded_in(h, g[j]) by {
            assert(order[n][j] == g[j]);
        }
        assert forall|j1: int, j2: int| 0 <= j1 < j2 < g.len() implies !(#[trigger] g[j1] == id && #[trigger] g[j2] == id) by {
            assert(order[n][j1] == g[j1] && order[n][j2] == g[j2]);
        }
        lemma_sole_group(g, h, rem, c, id);
        if named_in(order, id) {
            let (i, j) = choose|i: int, j: int| 0 <= i < order.len() && 0 <= j < order[i].len() && #[trigger] order[i][j] == id;
            if i < n {
                assert(o1[i][j] == id);
                assert(named_in(o1, id));
            } else {
                assert(g[j] == id);
                assert(g.contains(id));
            }
        }
        if named_in(o1, id) {
            let (i, j) = choose|i: int, j: int| 0 <= i < o1.len() && 0 <= j < o1[i].len() && #[trigger] o1[i][j] == id;
            assert(order[i][j] == id);
        }
        if g.contains(id) {
            let j = choose|j: int| 0 <= j < g.len() && g[j] == id;
            assert(order[n][j] == id);
        }
    }
}

proof fn lemma_sole_rounds(
    w: Seq<(u128, usize)>,
    order: Seq<Seq<u128>>,
    h: Seq<TurnView>,
    rem: Seq<(u128, usize)>,
    id: u128,
)
    requires
        keys_distinct(w),
        stake_of(w, id) + total(rem) <= usize::MAX,
        others_folded(order, h, id),
        named_once_per_group(order, id),
        named_in(order, id),
        !folded_in(h, id),
    ensures
        keys_distinct(divide_rounds(total(rem), w, order, h, rem)),
        stake_of(divide_rounds(total(rem), w, order, h, rem), id) == stake_of(w, id) + total(rem),
        forall|x: u128| x != id ==> #[trigger] stake_of(divide_rounds(total(rem), w, order, h, rem), x) == stake_of(w, x),
    decreases total(rem),
{
    if total(rem) > 0 {
        let c = chunk(rem);
        let pot = c * contributors(rem);
        lemma_chunk(rem);
        lemma_step_total(rem, c);
        assert(pot >= 1) by (nonlinear_arith)
            requires
                pot == c * contributors(rem),
                c >= 1,
                contributors(rem) >= 1,
        ;
        lemma_sole_order(order, h, rem, c, id);
        let ws = pot_winners(order, h, rem, c);
        if ws.len() > 0 {
            assert(ws == seq![id]);
            assert(ws.len() == 1);
            assert(pot / ws.len() == pot);
        }
        let w2 = round_pay(w, order, h, rem);
        assert(pay_each(w, seq![id], pot) == set_stake(pay_each(w, Seq::<u128>::empty(), pot), id, (stake_of(w, id) + pot) as usize)) by {
            assert(seq![id].drop_last() =~= Seq::<u128>::empty());
        }
        assert(w2 == set_stake(w, id, (stake_of(w, id) + pot) as usize));
        lemma_set_stake(w, id, (stake_of(w, id) + pot) as usize);
        let rem2 = step_rem(rem, c);
        lemma_fuel((total(rem) - 1) as nat, w2, order, h, rem2);
        lemma_sole_rounds(w2, order, h, rem2, id);
    }
}

/// A player who alone has not folded takes the whole pot: when every other player named in
/// the winning order has folded, and the player, who has not folded, is named in it (no
/// group naming the player twice), the player wins the sum of all stakes and everybody else
/// wins nothing.
pub proof fn lemma_sole_survivor_takes_all(p: PotView, order: Seq<Seq<u128>>, id: u128)
    requires
        total(p.stakes) <= usize::MAX,
        !folded_in(p.history, id),
        named_in(order, id),
        others_folded(order, p.history, id),
        named_once_per_group(order, id),
    ensures
        stake_of(spec_divide(p, order), id) == total(p.stakes),
        forall|x: u128| x != id ==> #[trigger] stake_of(spec_divide(p, order), x) == 0,
{
    let ids = first_ids(p.history);
    lemma_first_ids_distinct(p.history);
    lemma_zero_stakes(ids);
    lemma_sole_rounds(zero_stakes(ids), order, p.history, p.stakes, id);
}

/// The winning order as sequences of player IDs.
pub open spec fn order_view(o: Seq<Vec<u128>>) -> Seq<Seq<u128>> {
    o.map_values(|g: Vec<u128>| g@)
}

/// The chunk of the current pot: the smallest non-zero remaining stake, at most `POT_CAP`.
pub(crate) fn smallest_nonzero(rem: &Stakes) -> (c: u64)
    ensures
        c == chunk(rem@),
{
    let e = rem.entries();
    let mut acc: u64 = POT_CAP;
    let mut i: usize = 0;
    assert(e@.subrange(0, 0) =~= Seq::<(u128, usize)>::empty());
    while i < e.len()
        invariant
            i <= e@.len(),
            acc == min_nonzero(e@.subrange(0, i as int)),
        decreases e@.len() - i,
    {
        let x = e[i].1;
        assert(e@.subrange(0, i + 1).drop_last() =~= e@.subrange(0, i as int));
        if x != 0 && (x as u64) < acc {
            acc = x as u64;
        }
        i = i + 1;
    }
    assert(e@.subrange(0, e@.len() as int) =~= e@);
    acc
}

/// The players of group `g` who may win the current pot, in order.
pub(crate) fn group_winners(g: &Vec<u128>, pot: &Pot, rem: &Stakes, c: usize) -> (ws: Vec<u128>)
    requires
        rem.wf(),
    ensures
        ws@ == winners_of(g@, pot@.history, rem@, c as nat),
{
    let mut ws: Vec<u128> = Vec::new();
    let mut k: usize = 0;
    assert(g@.subrange(0, 0) =~= Seq::<u128>::empty());
    while k < g.len()
        invariant
            k <= g@.len(),
            rem.wf(),
            ws@ == winners_of(g@.subrange(0, k as int), pot@.history, rem@, c as nat),
        decreases g@.len() - k,
    {
        let p = g[k];
        let stake: usize = match rem.get_opt(&p) {
            Some(x) => x,
            None => 0,
        };
        assert(g@.subrange(0, k + 1).drop_last() =~= g@.subrange(0, k as int));
        assert(g@.subrange(0, k + 1).last() == p);
        if !pot.player_has_folded(&p) && stake >= c {
            ws.push(p);
        }
        k = k + 1;
    }
    assert(g@.subrange(0, g@.len() as int) =~= g@);
    ws
}

/// The winners of the current pot: those who may win it in the first group of the winning
/// order that has any.
pub(crate) fn order_winners(order: &Vec<Vec<u128>>, pot: &Pot, rem: &Stakes, c: usize) -> (ws: Vec<u128>)
    requires
        rem.wf(),
    ensures
        ws@ == pot_winners(order_view(order@), pot@.history, rem@, c as nat),
{
    let ghost ov = order_view(order@);
    let mut ws: Vec<u128> = Vec::new();
    let mut i: usize = 0;
    assert(ov.subrange(0, 0) =~= Seq::<Seq<u128>>::empty());
    while i < order.len()
        invariant
            i <= order@.len(),
            ov == order_view(order@),
            rem.wf(),
            ws@ == pot_winners(ov.subrange(0, i as int), pot@.history, rem@, c as nat),
        decreases order@.len() - i,
    {
        assert(ov.subrange(0, i + 1).drop_last() =~= ov.subrange(0, i as int));
        assert(ov.subrange(0, i + 1).last() == order@[i as int]@);
        if ws.len() == 0 {
            ws = group_winners(&order[i], pot, rem, c);
        }
        i = i + 1;
    }
    assert(ov.subrange(0, ov.len() as int) =~= ov);
    ws
}

/// The first player of group `g` who has not folded.
pub(crate) fn group_first_unfolded(g: &Vec<u128>, pot: &Pot) -> (r: Option<u128>)
    ensures
        r == first_unfolded_in(g@, pot@.history),
{
    let mut r: Option<u128> = None;
    let mut k: usize = 0;
    assert(g@.subrange(0, 0) =~= Seq::<u128>::empty());
    while k < g.len()
        invariant
            k <= g@.len(),
            r == first_unfolded_in(g@.subrange(0, k as int), pot@.history),
        decreases g@.len() - k,
    {
        assert(g@.subrange(0, k + 1).drop_last() =~= g@.subrange(0, k as int));
        assert(g@.subrange(0, k + 1).last() == g@[k as int]);
        if r.is_none() && !pot.player_has_folded(&g[k]) {
            r = Some(g[k]);
        }
        k = k + 1;
    }
    assert(g@.subrange(0, g@.len() as int) =~= g@);
    r
}

/// The first player of the winning order who has not folded.
pub(crate) fn order_first_unfolded(order: &Vec<Vec<u128>>, pot: &Pot) -> (r: Option<u128>)
    ensures
        r == first_unfolded(order_view(order@), pot@.history),
{
    let ghost ov = order_view(order@);
    let mut r: Option<u128> = None;
    let mut i: usize = 0;
    assert(ov.subrange(0, 0) =~= Seq::<Seq<u128>>::empty());
    while i < order.len()
        invariant
            i <= order@.len(),
            ov == order_view(order@),
            r == first_unfolded(ov.subrange(0, i as int), pot@.history),
        decreases order@.len() - i,
    {
        assert(ov.subrange(0, i + 1).drop_last() =~= ov.subrange(0, i as int));
        assert(ov.subrange(0, i + 1).last() == order@[i as int]@);
        if r.is_none() {
            r = group_first_unfolded(&order[i], pot);
        }
        i = i + 1;
    }
    assert(ov.subrange(0, ov.len() as int) =~= ov);
    r
}

/// Pays `a` to each of the players `ps`, once per occurrence.
pub(crate) fn pay_all(w: &mut Stakes, ps: &Vec<u128>, a: usize)
    requires
        old(w).wf(),
        total(old(w)@) + a * ps@.len() <= usize::MAX,
    ensures
        final(w).wf(),
        final(w)@ == pay_each(old(w)@, ps@, a as nat),
{
    let ghost w0 = w@;
    let mut k: usize = 0;
    assert(ps@.subrange(0, 0) =~= Seq::<u128>::empty());
    while k < ps.len()
        invariant
            k <= ps@.len(),
            w.wf(),
            keys_distinct(w0),
            total(w0) + a * ps@.len() <= usize::MAX,
            w@ == pay_each(w0, ps@.subrange(0, k as int), a as nat),
        decreases ps@.len() - k,
    {
        let p = ps[k];
        let ghost pre = ps@.subrange(0, k as int);
        proof {
            assert(a * k <= a * ps@.len()) by (nonlinear_arith)
                requires
                    k <= ps@.len(),
            ;
            lemma_pay_each(w0, pre, a as nat);
            lemma_index_of_bound(w@, p);
            assert(a * (k + 1) == a * k + a) by (nonlinear_arith);
            assert(a * (k + 1) <= a * ps@.len()) by (nonlinear_arith)
                requires
                    k + 1 <= ps@.len(),
            ;
        }
        let cur: usize = match w.get_opt(&p) {
            Some(x) => x,
            None => 0,
        };
        w.set(p, cur + a);
        assert(ps@.subrange(0, k + 1).drop_last() =~= pre);
        assert(ps@.subrange(0, k + 1).last() == p);
        k = k + 1;
    }
    assert(ps@.subrange(0, ps@.len() as int) =~= ps@);
}

} // verus!
