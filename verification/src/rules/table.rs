use vstd::prelude::*;

use crate::action::Action;
use crate::action_option::ActionOption;
use crate::card::Card;
use crate::card::{Rank, Suit, CardView, face_up_card, lemma_card_view_injective, lemma_face_up_card};
use crate::deck::{Deck, dealt_from, holds_card, lemma_count_concat, count_card, lemma_count_reverse, lemma_count_same_cards, is_card, lemma_count_push, lemma_count_dealt, lemma_holds_count, lemma_new_deck_counts};
use crate::input::{Input, AnswerLog, cards_of};
use crate::player::{Player, PlayerView};
use crate::hand_rank::{Hand, HandRank, HandRankSpec, spec_rank_hand, rank_hand_defined};
use crate::rules::ranking::{strength_groups, entries_view, group_by_strength, lemma_strength_groups_ids};
use crate::pot::{
    spec_divide, settlement_turns, next_phase, order_view, stake_sum, lemma_payout_bounded,
    lemma_stake_sum_prefix, Pot, PotView, TurnView, pot_wf, ids_of, keys_distinct, has_player, stake_of, total,
    largest, zero_stakes, first_ids, folded_in, stakes_after, count_folded, lemma_index_of,
    lemma_set_stake, lemma_total_bounds, lemma_first_ids_bounded, lemma_first_ids_distinct,
    lemma_stake_sum_le_total,
};

verus! {

/// The players as mathematical values.
pub open spec fn views(ps: Seq<Player>) -> Seq<PlayerView> {
    ps.map_values(|p: Player| p@)
}

/// The account IDs of the players, in seat order.
pub open spec fn player_ids(ps: Seq<PlayerView>) -> Seq<u128> {
    ps.map_values(|p: PlayerView| p.account_id)
}

/// The sum of the players' balances.
pub open spec fn balances(ps: Seq<PlayerView>) -> nat
    decreases ps.len(),
{
    if ps.len() == 0 {
        0
    } else {
        balances(ps.drop_last()) + ps.last().balance
    }
}

/// How many players have nothing left to bet.
pub open spec fn count_all_in(ps: Seq<PlayerView>) -> nat
    decreases ps.len(),
{
    if ps.len() == 0 {
        0
    } else {
        count_all_in(ps.drop_last()) + (if ps.last().balance == 0 { 1nat } else { 0nat })
    }
}

/// Everything a table holds, as mathematical values, with the log of the answers its
/// players have given through the input handler.
pub struct TableView {
    pub players: Seq<PlayerView>,
    pub deck: Seq<Card>,
    pub dealer_position: usize,
    pub current_player_index: usize,
    pub raise_limit: u32,
    pub big_blind_amount: u32,
    pub pot: PotView,
    pub community: Seq<Card>,
    pub answers: AnswerLog,
}

/// How many cards of rank `r` and suit `su` the players hold.
pub open spec fn hand_count(ps: Seq<PlayerView>, r: Rank, su: Suit) -> nat
    decreases ps.len(),
{
    if ps.len() == 0 {
        0
    } else {
        hand_count(ps.drop_last(), r, su) + count_card(ps.last().cards, r, su)
    }
}

/// How many cards of rank `r` and suit `su` are at the table: in the deck, in the players'
/// hands, or among the community cards.
pub open spec fn table_count(t: TableView, r: Rank, su: Suit) -> nat {
    count_card(t.deck, r, su) + hand_count(t.players, r, su) + count_card(t.community, r, su)
}

/// Every card of the deck is at the table exactly once: none is lost, none is doubled.
pub open spec fn cards_kept(t: TableView) -> bool {
    forall|r: Rank, su: Suit| #[trigger] table_count(t, r, su) == 1
}

/// The pot follows the players at the table: it is consistent, and, while players are
/// seated, it holds one stake for each of them, in seat order; no two players share an
/// account.
pub open spec fn seated(t: TableView) -> bool {
    &&& pot_wf(t.pot)
    &&& t.players.len() > 0 ==> ids_of(t.pot.stakes) == player_ids(t.players)
    &&& player_ids(t.players).no_duplicates()
    &&& t.players.len() < u32::MAX
    &&& t.dealer_position < u32::MAX
    &&& cards_kept(t)
}

/// The money at the table: the players' balances and what they have staked.
pub open spec fn money(t: TableView) -> nat {
    balances(t.players) + total(t.pot.stakes)
}

/// The stake of the player in seat `i`.
pub open spec fn seat_stake(t: TableView, i: int) -> nat {
    t.pot.stakes[i].1 as nat
}

/// `b` holds the same players as `a`, with the same names and cards; only balances may differ.
pub open spec fn same_players_but_balances(a: Seq<PlayerView>, b: Seq<PlayerView>) -> bool {
    &&& a.len() == b.len()
    &&& forall|i: int|
        0 <= i < a.len() ==> (#[trigger] b[i]).account_id == a[i].account_id && b[i].name == a[i].name
            && b[i].cards == a[i].cards
}

/// A table: the players, the deck, who deals and who acts, the betting limits, how the
/// players are asked for their choices, the pot, and a log of the answers they gave.
pub struct Table<I: Input> {
    players: Vec<Player>,
    deck: Deck,
    dealer_position: usize,
    current_player_index: usize,
    raise_limit: u32,
    big_blind_amount: u32,
    input: I,
    pot: Pot,
    community_cards: Vec<Card>,
    answers: Ghost<AnswerLog>,
}

impl<I: Input> View for Table<I> {
    type V = TableView;

    closed spec fn view(&self) -> TableView {
        TableView {
            players: self.players@.map_values(|p: Player| p@),
            deck: self.deck@,
            dealer_position: self.dealer_position,
            current_player_index: self.current_player_index,
            raise_limit: self.raise_limit,
            big_blind_amount: self.big_blind_amount,
            pot: self.pot@,
            community: self.community_cards@,
            answers: self.answers@,
        }
    }
}

/// The stakes of players who have staked nothing yet.
proof fn lemma_zero_stakes_ids(ids: Seq<u128>)
    ensures
        ids_of(zero_stakes(ids)) == ids,
        forall|i: int| 0 <= i < ids.len() ==> (#[trigger] zero_stakes(ids)[i]).1 == 0,
        total(zero_stakes(ids)) == 0,
{
    assert(ids_of(zero_stakes(ids)) =~= ids);
    crate::pot::lemma_zero_stakes(ids);
}

/// Changing one player's hand changes the count by the cards swapped.
pub proof fn lemma_hand_count_update(ps: Seq<PlayerView>, i: int, p: PlayerView)
    requires
        0 <= i < ps.len(),
    ensures
        forall|r: Rank, su: Suit| #[trigger] hand_count(ps.update(i, p), r, su) + count_card(ps[i].cards, r, su)
            == hand_count(ps, r, su) + count_card(p.cards, r, su),
    decreases ps.len(),
{
    let u = ps.update(i, p);
    if i < ps.len() - 1 {
        lemma_hand_count_update(ps.drop_last(), i, p);
        assert(u.drop_last() =~= ps.drop_last().update(i, p));
        assert(u.last() == ps.last());
        assert(ps.drop_last()[i] == ps[i]);
        assert forall|r: Rank, su: Suit| #[trigger] hand_count(ps.update(i, p), r, su) + count_card(ps[i].cards, r, su)
            == hand_count(ps, r, su) + count_card(p.cards, r, su) by {
            assert(hand_count(u, r, su) == hand_count(u.drop_last(), r, su) + count_card(u.last().cards, r, su));
            assert(hand_count(ps, r, su) == hand_count(ps.drop_last(), r, su) + count_card(ps.last().cards, r, su));
            assert(hand_count(ps.drop_last().update(i, p), r, su) + count_card(ps.drop_last()[i].cards, r, su)
                == hand_count(ps.drop_last(), r, su) + count_card(p.cards, r, su));
        }
    } else {
        assert(u.drop_last() =~= ps.drop_last());
        assert(u.last() == p);
        assert forall|r: Rank, su: Suit| #[trigger] hand_count(ps.update(i, p), r, su) + count_card(ps[i].cards, r, su)
            == hand_count(ps, r, su) + count_card(p.cards, r, su) by {
            assert(hand_count(u, r, su) == hand_count(u.drop_last(), r, su) + count_card(u.last().cards, r, su));
            assert(hand_count(ps, r, su) == hand_count(ps.drop_last(), r, su) + count_card(ps.last().cards, r, su));
        }
    }
}

/// Players holding the same cards seat by seat hold the same count of every card.
pub proof fn lemma_hand_count_same(a: Seq<PlayerView>, b: Seq<PlayerView>)
    requires
        a.len() == b.len(),
        forall|i: int| 0 <= i < a.len() ==> (#[trigger] a[i]).cards == b[i].cards,
    ensures
        forall|r: Rank, su: Suit| #[trigger] hand_count(a, r, su) == hand_count(b, r, su),
    decreases a.len(),
{
    if a.len() > 0 {
        assert forall|i: int| 0 <= i < a.drop_last().len() implies (#[trigger] a.drop_last()[i]).cards == b.drop_last()[i].cards by {
            assert(a.drop_last()[i] == a[i] && b.drop_last()[i] == b[i]);
        }
        lemma_hand_count_same(a.drop_last(), b.drop_last());
        assert(a[a.len() - 1] == a.last() && b[b.len() - 1] == b.last());
        assert forall|r: Rank, su: Suit| #[trigger] hand_count(a, r, su) == hand_count(b, r, su) by {
            assert(hand_count(a, r, su) == hand_count(a.drop_last(), r, su) + count_card(a.last().cards, r, su));
            assert(hand_count(b, r, su) == hand_count(b.drop_last(), r, su) + count_card(b.last().cards, r, su));
        }
    }
}

/// Players without cards hold none of any card.
pub proof fn lemma_hand_count_empty(ps: Seq<PlayerView>)
    requires
        forall|i: int| 0 <= i < ps.len() ==> (#[trigger] ps[i]).cards.len() == 0,
    ensures
        forall|r: Rank, su: Suit| #[trigger] hand_count(ps, r, su) == 0,
    decreases ps.len(),
{
    if ps.len() > 0 {
        assert forall|i: int| 0 <= i < ps.drop_last().len() implies (#[trigger] ps.drop_last()[i]).cards.len() == 0 by {
            assert(ps.drop_last()[i] == ps[i]);
        }
        lemma_hand_count_empty(ps.drop_last());
        assert(ps[ps.len() - 1] == ps.last());
        assert forall|r: Rank, su: Suit| #[trigger] hand_count(ps, r, su) == 0 by {
            assert(hand_count(ps, r, su) == hand_count(ps.drop_last(), r, su) + count_card(ps.last().cards, r, su));
        }
    }
}

/// A table holding the same cards in the same places as a table that keeps its cards keeps
/// them too.
pub proof fn lemma_cards_kept_same(a: TableView, b: TableView)
    requires
        cards_kept(a),
        a.deck == b.deck,
        a.community == b.community,
        a.players.len() == b.players.len(),
        forall|i: int| 0 <= i < a.players.len() ==> (#[trigger] a.players[i]).cards == b.players[i].cards,
    ensures
        cards_kept(b),
{
    lemma_hand_count_same(a.players, b.players);
    assert forall|r: Rank, su: Suit| #[trigger] table_count(b, r, su) == 1 by {
        assert(table_count(a, r, su) == 1);
    }
}

/// Changing one player's balance changes the sum of the balances by the difference.
pub proof fn lemma_balances_update(ps: Seq<PlayerView>, i: int, p: PlayerView)
    requires
        0 <= i < ps.len(),
    ensures
        balances(ps.update(i, p)) + ps[i].balance == balances(ps) + p.balance,
    decreases ps.len(),
{
    if i < ps.len() - 1 {
        lemma_balances_update(ps.drop_last(), i, p);
        assert(ps.update(i, p).drop_last() =~= ps.drop_last().update(i, p));
    } else {
        assert(ps.update(i, p).drop_last() =~= ps.drop_last());
    }
}

/// No player's balance exceeds the sum of the balances.
pub proof fn lemma_balance_le(ps: Seq<PlayerView>, i: int)
    requires
        0 <= i < ps.len(),
    ensures
        ps[i].balance <= balances(ps),
    decreases ps.len(),
{
    if i < ps.len() - 1 {
        lemma_balance_le(ps.drop_last(), i);
        assert(ps.drop_last()[i] == ps[i]);
    }
}

/// Distinct account IDs make distinct stakes entries.
pub proof fn lemma_seated_keys(t: TableView)
    requires
        ids_of(t.pot.stakes) == player_ids(t.players),
        player_ids(t.players).no_duplicates(),
    ensures
        t.pot.stakes.len() == t.players.len(),
        forall|i: int| 0 <= i < t.players.len() ==> (#[trigger] t.pot.stakes[i]).0 == t.players[i].account_id,
        keys_distinct(t.pot.stakes),
{
    let k = ids_of(t.pot.stakes);
    assert(k.len() == t.players.len());
    assert forall|i: int| 0 <= i < t.players.len() implies (#[trigger] t.pot.stakes[i]).0 == t.players[i].account_id by {
        assert(k[i] == player_ids(t.players)[i]);
    }
    assert forall|i: int, j: int| 0 <= i < j < t.pot.stakes.len() implies (#[trigger] t.pot.stakes[i]).0
        != (#[trigger] t.pot.stakes[j]).0 by {
        assert(k[i] == t.pot.stakes[i].0 && k[j] == t.pot.stakes[j].0);
    }
}

/// The table after the player in seat `i` takes action `a` in phase `phase` and pays `paid`
/// from their balance: the turn is recorded with the player's cards, and the pot's stakes
/// change as the action says.
pub open spec fn after_turn(t: TableView, i: int, a: Action, phase: usize, paid: nat) -> TableView {
    TableView {
        players: t.players.update(i, PlayerView { balance: (t.players[i].balance - paid) as nat, ..t.players[i] }),
        pot: PotView {
            history: t.pot.history.push((t.players[i].account_id, a, phase, t.players[i].cards)),
            stakes: stakes_after(t.pot.stakes, t.players[i].account_id, a),
        },
        ..t
    }
}

/// The seat of the second blind: the seat after the dealer, or the first seat when the
/// dealer sits last.
pub open spec fn second_blind_seat(t: TableView) -> int {
    if t.dealer_position + 1 < t.players.len() {
        t.dealer_position + 1
    } else {
        0
    }
}

/// The table after the first blind: the dealer's seat antes half the big blind.
pub open spec fn after_first_blind(t: TableView) -> TableView {
    after_turn(t, t.dealer_position as int, Action::Ante((t.big_blind_amount / 2) as usize), 0, (t.big_blind_amount / 2) as nat)
}

/// The table after both blinds: the next seat antes the big blind, and the turn has moved
/// on twice.
pub open spec fn after_blinds(t: TableView) -> TableView {
    let t1 = after_first_blind(t);
    let t2 = after_turn(t1, second_blind_seat(t), Action::Ante(t.big_blind_amount as usize), 0, t.big_blind_amount as nat);
    TableView { current_player_index: next_seat(next_seat(t.current_player_index, t.players.len()), t.players.len()), ..t2 }
}

/// The seat after `c` at a table of `n` players.
pub open spec fn next_seat(c: usize, n: nat) -> usize {
    if c + 1 == n {
        0
    } else {
        (c + 1) as usize
    }
}

/// A blind of `amount` can be paid by seat `i`: it raises the seat's stake, and the balance
/// covers it.
pub open spec fn blind_payable(t: TableView, i: int, amount: nat) -> bool {
    &&& seat_stake(t, i) < amount
    &&& t.players[i].balance >= amount
}

/// Both blinds can be paid.
pub open spec fn blinds_payable(t: TableView) -> bool {
    &&& blind_payable(t, t.dealer_position as int, (t.big_blind_amount / 2) as nat)
    &&& blind_payable(after_first_blind(t), second_blind_seat(t), t.big_blind_amount as nat)
}

/// The actions a player may take in a bet turn, where `call` is the amount to match,
/// `stake` what the player has staked so far, `bal` their balance, and `raised` whether a
/// raise has occurred in this bet phase.
///
/// When nobody has raised and the player has matched the call, they may check, raise or
/// fold; otherwise, when their balance (cut to 32 bits) exceeds the call amount (cut to 32
/// bits), they may call, raise or fold; otherwise they may only go all in or fold. A raise
/// names the new total stake, at least the call amount and above the player's stake.
pub open spec fn legal_bet(call: usize, stake: usize, bal: usize, raised: bool, a: Action) -> bool {
    if !raised && call == stake {
        ||| a == Action::Check
        ||| a == Action::Fold
        ||| a matches Action::Raise(x) && x > call && x - stake <= bal
    } else if (bal as u32) > (call as u32) {
        ||| a == Action::Fold
        ||| a == Action::Call && call > stake && call - stake <= bal
        ||| a matches Action::Raise(x) && x >= call && x > stake && x - stake <= bal
    } else {
        ||| a == Action::Fold
        ||| a == Action::AllIn((stake + bal) as usize)
    }
}

/// What an action takes from the player's balance: the rise of their stake.
pub open spec fn bet_paid(call: usize, stake: usize, a: Action) -> nat {
    match a {
        Action::Raise(x) => (x - stake) as nat,
        Action::AllIn(x) => (x - stake) as nat,
        Action::Call => (call - stake) as nat,
        _ => 0,
    }
}

/// The call amount at the table: the largest stake.
pub open spec fn call_amount(t: TableView) -> usize {
    largest(t.pot.stakes) as usize
}

/// The table after the player to act takes the bet action `a` in phase `phase`.
pub open spec fn after_bet(t: TableView, a: Action, phase: usize) -> TableView {
    let i = t.current_player_index as int;
    after_turn(t, i, a, phase, bet_paid(call_amount(t), seat_stake(t, i) as usize, a))
}

/// `b` follows `a` within bet phase `phase`: the same players with the same cards (only
/// balances change), the same deck, dealer and limits; the pot's history only grows, by
/// turns of this phase.
pub open spec fn bet_progress(a: TableView, b: TableView, phase: usize) -> bool {
    &&& same_players_but_balances(a.players, b.players)
    &&& b.deck == a.deck
    &&& b.dealer_position == a.dealer_position
    &&& b.raise_limit == a.raise_limit
    &&& b.big_blind_amount == a.big_blind_amount
    &&& b.community == a.community
    &&& a.pot.history.len() <= b.pot.history.len()
    &&& b.pot.history.subrange(0, a.pot.history.len() as int) == a.pot.history
    &&& forall|k: int| a.pot.history.len() <= k < b.pot.history.len() ==> (#[trigger] b.pot.history[k]).2 == phase
}

/// What the player in seat `k` holds: their balance and their stake in the pot.
pub open spec fn holdings(t: TableView, k: int) -> nat {
    t.players[k].balance + stake_of(t.pot.stakes, t.players[k].account_id)
}

/// A legal bet turn moves money only from the balance of the player to act to that
/// player's own stake: every seat holds as much as before.
pub proof fn lemma_bet_turn_holdings(t: TableView, raised: bool, a: Action, phase: usize)
    requires
        seated(t),
        t.current_player_index < t.players.len(),
        legal_bet(
            call_amount(t),
            seat_stake(t, t.current_player_index as int) as usize,
            t.players[t.current_player_index as int].balance as usize,
            raised,
            a,
        ),
        money(t) <= usize::MAX,
    ensures
        forall|k: int| 0 <= k < t.players.len() ==> #[trigger] holdings(after_bet(t, a, phase), k) == holdings(t, k),
{
    let i = t.current_player_index as int;
    lemma_balance_le(t.players, i);
    lemma_total_bounds(t.pot.stakes);
    let st = t.pot.stakes;
    let id = t.players[i].account_id;
    let u = after_bet(t, a, phase);
    lemma_seated_keys(t);
    lemma_index_of(st, i);
    assert(player_ids(t.players)[i] == id);
    assert(stake_of(st, id) == seat_stake(t, i));
    lemma_set_stake(st, id, 0);
    match crate::pot::money_amount(a) {
        Some(x) => {
            lemma_set_stake(st, id, x);
        },
        None => {
            if a == Action::Call {
                lemma_set_stake(st, id, largest(st) as usize);
            }
        },
    }
    assert forall|k: int| 0 <= k < t.players.len() implies #[trigger] holdings(u, k) == holdings(t, k) by {
        if k != i {
            assert(player_ids(t.players)[k] == t.players[k].account_id);
            assert(t.players[k].account_id != id);
            assert(u.players[k] == t.players[k]);
        } else {
            let stake = seat_stake(t, i);
            let bal = t.players[i].balance;
            let paid = bet_paid(call_amount(t), stake as usize, a);
            assert(paid <= bal);
            assert(u.players[i].balance == bal - paid);
            assert(stake_of(u.pot.stakes, id) == stake + paid);
        }
    }
}

/// The table with the turn moved to the next seat.
pub open spec fn advanced(t: TableView) -> TableView {
    TableView { current_player_index: next_seat(t.current_player_index, t.players.len()), ..t }
}

/// The betting is over before the player to act: all players but one have folded, or all
/// players but one are all in and the player to act has matched the call amount.
pub open spec fn bet_over(t: TableView) -> bool {
    ||| count_folded(first_ids(t.pot.history), t.pot.history) + 1 == t.players.len()
    ||| (count_all_in(t.players) + 1 == t.players.len() && call_amount(t) == seat_stake(
        t,
        t.current_player_index as int,
    ))
}

/// The player to act is passed over: they have folded or have nothing left.
pub open spec fn seat_passed(t: TableView) -> bool {
    let i = t.current_player_index as int;
    folded_in(t.pot.history, t.players[i].account_id) || t.players[i].balance == 0
}

/// The state of a bet phase between turns: the table, the seat of the last raise (or of the
/// first player, when nobody has raised) and whether anybody has raised.
pub type BetState = (TableView, usize, bool);

/// The player to act at bet state `s` takes the action `a`.
pub open spec fn bet_turn(s: BetState, a: Action, phase: usize) -> BetState {
    let t = s.0;
    let i = t.current_player_index;
    let is_raise = a is Raise;
    (advanced(after_bet(t, a, phase)), if is_raise { i } else { s.1 }, s.2 || is_raise)
}

/// The table `t` with the log of answers `log`.
pub open spec fn answered(t: TableView, log: AnswerLog) -> TableView {
    TableView { answers: log, ..t }
}

/// The player to act at `t` was asked for a bet turn (`raised`: a raise has occurred in the
/// phase), which took the log of answers from `t.answers` to `log`: one choice of action,
/// then, when that choice asks for an amount (see `asks_raise`), one raise amount.
#[verifier::opaque]
pub open spec fn bet_asked(t: TableView, raised: bool, log: AnswerLog) -> bool {
    let i = t.current_player_index as int;
    let asked = asks_raise(call_amount(t), seat_stake(t, i) as usize, t.players[i].balance as usize, raised, log.actions.last());
    &&& log.actions.len() == t.answers.actions.len() + 1
    &&& log.actions.drop_last() == t.answers.actions
    &&& asked ==> log.raises.len() == t.answers.raises.len() + 1 && log.raises.drop_last() == t.answers.raises
    &&& !asked ==> log.raises == t.answers.raises
    &&& log.replacements == t.answers.replacements
}

/// The action taken at the bet turn at `t` that got the answers ending `log` (see
/// `bet_asked`): `bet_answer` of the choice and, when one was asked for, the raise amount.
#[verifier::opaque]
pub open spec fn bet_answered(t: TableView, raised: bool, log: AnswerLog) -> Result<Action, &'static str> {
    let i = t.current_player_index as int;
    let call = call_amount(t);
    let stake = seat_stake(t, i) as usize;
    let bal = t.players[i].balance as usize;
    let chosen = log.actions.last();
    let raise_by = if asks_raise(call, stake, bal, raised, chosen) { log.raises.last() } else { None };
    bet_answer(call, stake, bal, raised, chosen, raise_by)
}

/// The player to act at `a`, who is not passed over, takes a bet turn that leads to `b`:
/// they are asked for a bet turn, the answers got are those logged at `b`, the action taken
/// is the one they give (see `bet_answered`), and the turn passes on.
#[verifier::opaque]
pub open spec fn bet_turn_taken(a: BetState, b: BetState, phase: usize) -> bool {
    let t = a.0;
    let i = t.current_player_index as int;
    let log = b.0.answers;
    &&& bet_asked(t, a.2, log)
    &&& bet_answered(t, a.2, log) matches Ok(act) && legal_bet(
        call_amount(t),
        seat_stake(t, i) as usize,
        t.players[i].balance as usize,
        a.2,
        act,
    ) && b == bet_turn((answered(t, log), a.1, a.2), act, phase)
}

/// One step of a bet phase in phase `phase` from `a` to `b`: the betting is not over; a
/// player who is passed over only passes the turn on; any other player takes a bet turn
/// (see `bet_turn_taken`).
pub open spec fn bet_step(a: BetState, b: BetState, phase: usize) -> bool {
    &&& !bet_over(a.0)
    &&& if seat_passed(a.0) {
        b == (advanced(a.0), a.1, a.2)
    } else {
        bet_turn_taken(a, b, phase)
    }
}

/// The states `tr` of a bet phase in phase `phase` starting at `start`: each follows the one
/// before by a bet step, and the turn has not come back to the last raise (or the first
/// player) before the last state.
pub open spec fn bet_trace(tr: Seq<BetState>, start: TableView, phase: usize) -> bool {
    &&& tr.len() >= 1
    &&& tr[0] == (start, start.current_player_index, false)
    &&& forall|k: int| 0 <= k < tr.len() - 1 ==> bet_step(#[trigger] tr[k], tr[k + 1], phase)
    &&& forall|k: int| 1 <= k < tr.len() - 1 ==> (#[trigger] tr[k]).0.current_player_index != tr[k].1
}

/// A bet phase that ended at the last state of `tr`: the betting was over, or the turn came
/// back to the last raise (or the first player).
pub open spec fn bet_ended(tr: Seq<BetState>) -> bool {
    ||| bet_over(tr.last().0)
    ||| (tr.len() > 1 && tr.last().0.current_player_index == tr.last().1)
}

/// A bet phase in phase `phase` that started at `start` ended at `f` with result `r`: some
/// trace of bet steps leads from `start` to the last state; when `r` is `Ok` that state is
/// `f`, and the betting was over or the turn came back to the last raise (or the first
/// player); when it is an error, the player to act was asked for a bet turn, the answers
/// got are those logged at `f`, nothing else changed, and those answers were refused for
/// that reason.
#[verifier::opaque]
pub open spec fn bet_phase_played(start: TableView, f: TableView, r: Result<(), &'static str>, phase: usize) -> bool {
    exists|tr: Seq<BetState>| {
        &&& #[trigger] bet_trace(tr, start, phase)
        &&& r is Ok ==> tr.last().0 == f && bet_ended(tr)
        &&& r matches Err(e) ==> {
            let t = tr.last().0;
            &&& !bet_over(t)
            &&& !seat_passed(t)
            &&& f == answered(t, f.answers)
            &&& bet_asked(t, tr.last().2, f.answers)
            &&& bet_answered(t, tr.last().2, f.answers) == Err::<Action, &'static str>(e)
        }
    }
}

/// A bet turn taken at `s` with the answers logged at `t2` is a step of the bet phase.
proof fn lemma_bet_step_turn(s: BetState, t2: TableView, a: Action, phase: usize)
    requires
        !bet_over(s.0),
        !seat_passed(s.0),
        bet_asked(s.0, s.2, t2.answers),
        bet_answered(s.0, s.2, t2.answers) == Ok::<Action, &'static str>(a),
        legal_bet(
            call_amount(s.0),
            seat_stake(s.0, s.0.current_player_index as int) as usize,
            s.0.players[s.0.current_player_index as int].balance as usize,
            s.2,
            a,
        ),
    ensures
        bet_step(s, bet_turn((answered(s.0, t2.answers), s.1, s.2), a, phase), phase),
{
    reveal(bet_turn_taken);
}

/// A trace of a bet phase grows by a step from its last state, while the turn has not come
/// back to the last raise.
proof fn lemma_bet_trace_push(tr: Seq<BetState>, start: TableView, phase: usize, next: BetState)
    requires
        bet_trace(tr, start, phase),
        bet_step(tr.last(), next, phase),
        tr.len() > 1 ==> tr.last().0.current_player_index != tr.last().1,
    ensures
        bet_trace(tr.push(next), start, phase),
        tr.push(next).last() == next,
{
    let t2 = tr.push(next);
    assert forall|k: int| 0 <= k < t2.len() - 1 implies bet_step(#[trigger] t2[k], t2[k + 1], phase) by {
        if k < tr.len() - 1 {
            assert(t2[k] == tr[k] && t2[k + 1] == tr[k + 1]);
        } else {
            assert(t2[k] == tr.last());
        }
    }
    assert forall|k: int| 1 <= k < t2.len() - 1 implies (#[trigger] t2[k]).0.current_player_index != t2[k].1 by {
        assert(t2[k] == tr[k]);
    }
}

/// A bet phase whose last turn was refused ended in that error.
proof fn lemma_bet_phase_failed(tr: Seq<BetState>, start: TableView, phase: usize, f: TableView, e: &'static str)
    requires
        bet_trace(tr, start, phase),
        !bet_over(tr.last().0),
        !seat_passed(tr.last().0),
        f == answered(tr.last().0, f.answers),
        bet_asked(tr.last().0, tr.last().2, f.answers),
        bet_answered(tr.last().0, tr.last().2, f.answers) == Err::<Action, &'static str>(e),
    ensures
        bet_phase_played(start, f, Err(e), phase),
{
    reveal(bet_phase_played);
}

/// A bet phase whose trace ended, the betting over or the turn back to the last raise,
/// ended well.
proof fn lemma_bet_phase_ended(tr: Seq<BetState>, start: TableView, phase: usize, f: TableView)
    requires
        bet_trace(tr, start, phase),
        tr.last().0 == f,
        bet_ended(tr),
    ensures
        bet_phase_played(start, f, Ok(()), phase),
{
    reveal(bet_phase_played);
}

/// Only the log of answers differs between `t` and `answered(t, log)`.
proof fn lemma_answered_same(t0: TableView, t: TableView, log: AnswerLog, phase: usize)
    requires
        bet_progress(t0, t, phase),
    ensures
        money(answered(t, log)) == money(t),
        bet_progress(t0, answered(t, log), phase),
        forall|k: int| #[trigger] holdings(answered(t, log), k) == holdings(t, k),
{
}

/// A bet turn keeps the progress of a bet phase.
proof fn lemma_bet_progress_turn(t0: TableView, t1: TableView, t2: TableView, a: Action, phase_number: usize)
    requires
        bet_progress(t0, t1, phase_number),
        t1.current_player_index < t1.players.len(),
        t2 == after_bet(answered(t1, t2.answers), a, phase_number),
    ensures
        bet_progress(t0, t2, phase_number),
{
    assert forall|k: int| 0 <= k < t0.players.len() implies (#[trigger] t2.players[k]).account_id
        == t0.players[k].account_id && t2.players[k].name == t0.players[k].name
        && t2.players[k].cards == t0.players[k].cards by {
        assert(t1.players[k].account_id == t0.players[k].account_id);
    }
    assert(t2.pot.history.subrange(0, t0.pot.history.len() as int)
        =~= t1.pot.history.subrange(0, t0.pot.history.len() as int));
    assert forall|k: int| t0.pot.history.len() <= k < t2.pot.history.len() implies (#[trigger] t2.pot.history[k]).2
        == phase_number by {
        if k < t1.pot.history.len() {
            assert(t2.pot.history[k] == t1.pot.history[k]);
        }
    }
}

/// The table at which a bet phase starts: the turn goes to the dealer's seat when
/// `from_dealer`.
pub open spec fn bet_start(t: TableView, from_dealer: bool) -> TableView {
    if from_dealer {
        TableView { current_player_index: t.dealer_position, ..t }
    } else {
        t
    }
}

/// The smaller of two numbers.
fn min_u32(a: u32, b: u32) -> (m: u32)
    ensures
        m == if a < b { a } else { b },
{
    if a < b {
        a
    } else {
        b
    }
}

/// The actions offered at a bet turn (see `legal_bet` for the parameters): check, raise or
/// fold when nobody has raised and the player has matched the call; call, raise or fold
/// when their balance (cut to 32 bits) exceeds the call amount (cut to 32 bits); otherwise
/// all in or fold when `offer_all_in`, else call, raise or fold as in hold'em.
pub open spec fn offered_bets(call: usize, stake: usize, bal: usize, raised: bool, offer_all_in: bool) -> Seq<ActionOption> {
    if !raised && call == stake {
        seq![ActionOption::Check, ActionOption::Raise, ActionOption::Fold]
    } else if (bal as u32) > (call as u32) {
        seq![ActionOption::Call, ActionOption::Raise, ActionOption::Fold]
    } else if offer_all_in {
        seq![ActionOption::AllIn, ActionOption::Fold]
    } else {
        seq![ActionOption::Call, ActionOption::Raise, ActionOption::Fold]
    }
}

/// The player chose to raise where a raise is accepted, and is asked by how much.
pub open spec fn asks_raise(call: usize, stake: usize, bal: usize, raised: bool, chosen: Option<ActionOption>) -> bool {
    &&& chosen == Some(ActionOption::Raise)
    &&& ((!raised && call == stake) || (bal as u32) > (call as u32))
}

/// The most a player asked for a raise may raise by: the raise limit, and no more than the
/// balance (cut to 32 bits) above the call amount when the player has not matched it.
pub open spec fn raise_cap(raise_limit: u32, call: usize, stake: usize, bal: usize, raised: bool) -> u32 {
    let room: u32 = if !raised && call == stake { bal as u32 } else { ((bal as u32) - (call as u32)) as u32 };
    if raise_limit < room { raise_limit } else { room }
}

/// The action taken at a bet turn for the answers: the option `chosen` among those offered
/// and, for a raise, the amount `raise_by` that it raises the call amount by. A missing or
/// unoffered choice, a missing amount, and a bet the player cannot pay or that does not
/// raise their stake are refused with the reason.
pub open spec fn bet_answer(
    call: usize,
    stake: usize,
    bal: usize,
    raised: bool,
    chosen: Option<ActionOption>,
    raise_by: Option<u32>,
) -> Result<Action, &'static str> {
    let short = "Player does not have enough money remaining to make this bet";
    let impossible = "Player managed to select an impossible Action!";
    let raise = match raise_by {
        None => Err("No raise amount was given"),
        Some(by) => {
            let x = call + by;
            if x <= usize::MAX && x > stake && x - stake <= bal {
                Ok(Action::Raise(x as usize))
            } else {
                Err(short)
            }
        },
    };
    if !raised && call == stake {
        match chosen {
            Some(ActionOption::Check) => Ok(Action::Check),
            Some(ActionOption::Raise) => raise,
            Some(ActionOption::Fold) => Ok(Action::Fold),
            _ => Err(impossible),
        }
    } else if (bal as u32) > (call as u32) {
        match chosen {
            Some(ActionOption::Call) => if call > stake && call - stake <= bal {
                Ok(Action::Call)
            } else {
                Err(short)
            },
            Some(ActionOption::Raise) => raise,
            Some(ActionOption::Fold) => Ok(Action::Fold),
            _ => Err(impossible),
        }
    } else {
        match chosen {
            Some(ActionOption::AllIn) => Ok(Action::AllIn((stake + bal) as usize)),
            Some(ActionOption::Fold) => Ok(Action::Fold),
            _ => Err(impossible),
        }
    }
}

/// The actions offered at a bet turn (see `offered_bets`).
pub fn bet_options(call: usize, stake: usize, bal: usize, raised: bool, offer_all_in: bool) -> (o: Vec<ActionOption>)
    ensures
        o@ == offered_bets(call, stake, bal, raised, offer_all_in),
{
    let o = if !raised && call == stake {
        vec![ActionOption::Check, ActionOption::Raise, ActionOption::Fold]
    } else if #[verifier::truncate] (bal as u32) > #[verifier::truncate] (call as u32) {
        vec![ActionOption::Call, ActionOption::Raise, ActionOption::Fold]
    } else if offer_all_in {
        vec![ActionOption::AllIn, ActionOption::Fold]
    } else {
        vec![ActionOption::Call, ActionOption::Raise, ActionOption::Fold]
    };
    assert(o@ =~= offered_bets(call, stake, bal, raised, offer_all_in));
    o
}

/// The most a player asked for a raise may raise by (see `raise_cap`).
pub fn bet_raise_limit(raise_limit: u32, call: usize, stake: usize, bal: usize, raised: bool) -> (l: u32)
    requires
        (!raised && call == stake) || (bal as u32) > (call as u32),
    ensures
        l == raise_cap(raise_limit, call, stake, bal, raised),
{
    let room: u32 = if !raised && call == stake {
        #[verifier::truncate] (bal as u32)
    } else {
        #[verifier::truncate] (bal as u32) - #[verifier::truncate] (call as u32)
    };
    min_u32(raise_limit, room)
}

/// The action taken at a bet turn for the answers given (see `bet_answer`).
pub fn bet_action(
    call: usize,
    stake: usize,
    bal: usize,
    raised: bool,
    chosen: Option<ActionOption>,
    raise_by: Option<u32>,
) -> (r: Result<Action, &'static str>)
    requires
        stake + bal <= usize::MAX,
    ensures
        r == bet_answer(call, stake, bal, raised, chosen, raise_by),
        r matches Ok(a) ==> legal_bet(call, stake, bal, raised, a),
{
    let short = "Player does not have enough money remaining to make this bet";
    let impossible = "Player managed to select an impossible Action!";
    let first = !raised && call == stake;
    let second = #[verifier::truncate] (bal as u32) > #[verifier::truncate] (call as u32);
    if !first && !second {
        return match chosen {
            Some(ActionOption::AllIn) => Ok(Action::AllIn(stake + bal)),
            Some(ActionOption::Fold) => Ok(Action::Fold),
            _ => Err(impossible),
        };
    }
    match chosen {
        Some(ActionOption::Check) => {
            if first {
                Ok(Action::Check)
            } else {
                Err(impossible)
            }
        },
        Some(ActionOption::Call) => {
            if first {
                Err(impossible)
            } else if call > stake && call - stake <= bal {
                Ok(Action::Call)
            } else {
                Err(short)
            }
        },
        Some(ActionOption::Raise) => match raise_by {
            None => Err("No raise amount was given"),
            Some(by) => match call.checked_add(by as usize) {
                Some(x) => {
                    if x > stake && x - stake <= bal {
                        Ok(Action::Raise(x))
                    } else {
                        Err(short)
                    }
                },
                None => Err(short),
            },
        },
        Some(ActionOption::Fold) => Ok(Action::Fold),
        _ => Err(impossible),
    }
}

/// The action taken at a draw turn for the answers: replacing the `n_chosen` cards chosen,
/// or checking. A missing or unoffered choice, and a replacement with no cards chosen, are
/// refused with the reason.
pub open spec fn draw_answer(chosen: Option<ActionOption>, n_chosen: Option<usize>) -> Result<Action, &'static str> {
    match chosen {
        Some(ActionOption::Replace) => match n_chosen {
            Some(n) => Ok(Action::Replace(n)),
            None => Err("No cards were chosen to be replaced"),
        },
        Some(ActionOption::Check) => Ok(Action::Check),
        _ => Err("Player managed to select an impossible Action!"),
    }
}

/// The action taken at a draw turn for the answers given (see `draw_answer`).
pub fn draw_action(chosen: Option<ActionOption>, n_chosen: Option<usize>) -> (r: Result<Action, &'static str>)
    ensures
        r == draw_answer(chosen, n_chosen),
{
    match chosen {
        Some(ActionOption::Replace) => match n_chosen {
            Some(n) => Ok(Action::Replace(n)),
            None => Err("No cards were chosen to be replaced"),
        },
        Some(ActionOption::Check) => Ok(Action::Check),
        _ => Err("Player managed to select an impossible Action!"),
    }
}

/// How many of the players `ids` folded is at most how many they are.
proof fn lemma_count_folded_le(ids: Seq<u128>, h: Seq<TurnView>)
    ensures
        count_folded(ids, h) <= ids.len(),
    decreases ids.len(),
{
    if ids.len() > 0 {
        lemma_count_folded_le(ids.drop_last(), h);
    }
}

/// No more players are all in than there are players.
proof fn lemma_count_all_in_le(ps: Seq<PlayerView>)
    ensures
        count_all_in(ps) <= ps.len(),
    decreases ps.len(),
{
    if ps.len() > 0 {
        lemma_count_all_in_le(ps.drop_last());
    }
}

/// `t1` is `t0` after a card was dealt from the deck to the player in seat `i`, turned
/// face up or down as `face_up` says.
pub open spec fn dealt_to_player(t0: TableView, t1: TableView, i: int, face_up: bool) -> bool {
    exists|c: Card| {
        &&& dealt_from(t0.deck, c, t1.deck)
        &&& t1.players.len() == t0.players.len()
        &&& t1.players[i].cards.len() == t0.players[i].cards.len() + 1
        &&& t1.players[i].cards.drop_last() == t0.players[i].cards
        &&& (#[trigger] t1.players[i].cards.last())@ == (CardView { face_up, ..c@ })
        &&& t1.players == t0.players.update(i, PlayerView { cards: t1.players[i].cards, ..t0.players[i] })
    }
}

/// The seat `k` is dealt a card in a round of dealing: every seat, or, when
/// `only_unfolded`, the seats of players who have not folded.
pub open spec fn dealt_seat(t: TableView, k: int, only_unfolded: bool) -> bool {
    !only_unfolded || !folded_in(t.pot.history, t.players[k].account_id)
}

/// How many of the first `n` seats are dealt a card in a round of dealing.
pub open spec fn count_dealt_seats(t: TableView, n: int, only_unfolded: bool) -> nat
    decreases n,
{
    if n <= 0 {
        0
    } else {
        count_dealt_seats(t, n - 1, only_unfolded) + (if dealt_seat(t, n - 1, only_unfolded) { 1nat } else { 0nat })
    }
}

/// `t1` is `t0` after a round of dealing: every seat dealt a card holds one card more, face
/// up or down as `face_up` says, and the other seats are unchanged.
pub open spec fn round_dealt(t0: TableView, t1: TableView, only_unfolded: bool, face_up: bool) -> bool {
    &&& t1 == (TableView { players: t1.players, deck: t1.deck, ..t0 })
    &&& t1.players.len() == t0.players.len()
    &&& t1.deck.len() + count_dealt_seats(t0, t0.players.len() as int, only_unfolded) == t0.deck.len()
    &&& forall|k: int| 0 <= k < t0.players.len() ==> {
        let p0 = t0.players[k];
        let p1 = #[trigger] t1.players[k];
        &&& dealt_seat(t0, k, only_unfolded) ==> {
            &&& p1 == (PlayerView { cards: p1.cards, ..p0 })
            &&& p1.cards.len() == p0.cards.len() + 1
            &&& p1.cards.drop_last() == p0.cards
            &&& p1.cards.last()@.face_up == face_up
        }
        &&& !dealt_seat(t0, k, only_unfolded) ==> p1 == p0
    }
}

/// Seats dealt to among the first `a` are no more than among the first `b`, and seat `a`
/// adds one when dealt to.
pub proof fn lemma_count_dealt_seats_le(t: TableView, a: int, b: int, only_unfolded: bool)
    requires
        0 <= a < b,
        dealt_seat(t, a, only_unfolded),
    ensures
        count_dealt_seats(t, a, only_unfolded) + 1 <= count_dealt_seats(t, b, only_unfolded),
    decreases b - a,
{
    if b - 1 > a {
        lemma_count_dealt_seats_le(t, a, b - 1, only_unfolded);
    }
}

/// The cards of `s` that match none of `chosen` (by rank and suit), in order.
pub open spec fn kept_cards(s: Seq<Card>, chosen: Seq<Card>) -> Seq<Card>
    decreases s.len(),
{
    if s.len() == 0 {
        Seq::empty()
    } else if holds_card(chosen, s.last()@) {
        kept_cards(s.drop_last(), chosen)
    } else {
        kept_cards(s.drop_last(), chosen).push(s.last())
    }
}

/// The cards of `s` that match one of `chosen` (by rank and suit), in order.
pub open spec fn taken_cards(s: Seq<Card>, chosen: Seq<Card>) -> Seq<Card>
    decreases s.len(),
{
    if s.len() == 0 {
        Seq::empty()
    } else if holds_card(chosen, s.last()@) {
        taken_cards(s.drop_last(), chosen).push(s.last())
    } else {
        taken_cards(s.drop_last(), chosen)
    }
}

/// The hand of a player who replaces the cards matching `chosen`: their hand, taken back
/// last card first, without those cards.
pub open spec fn hand_after_discard(hand: Seq<Card>, chosen: Seq<Card>) -> Seq<Card> {
    kept_cards(hand.reverse(), chosen)
}

/// Whether `cards` holds the same card (rank and suit) as `card`.
fn holds(cards: &Vec<Card>, card: &Card) -> (r: bool)
    ensures
        r == holds_card(cards@, card@),
{
    let mut i: usize = 0;
    while i < cards.len()
        invariant
            i <= cards@.len(),
            forall|j: int| 0 <= j < i ==> !crate::card::same_card(#[trigger] cards@[j]@, card@),
        decreases cards@.len() - i,
    {
        if cards[i].same_as(card) {
            assert(crate::card::same_card(cards@[i as int]@, card@));
            return true;
        }
        i = i + 1;
    }
    false
}

/// `t1` is `t0` after the player in seat `i` replaced the cards of their hand matching
/// `chosen`: the cards kept come first, then as many new cards, face down, as `chosen` names.
pub open spec fn replaced(t0: TableView, t1: TableView, i: int, chosen: Seq<Card>) -> bool {
    let kept = hand_after_discard(t0.players[i].cards, chosen);
    let p1 = t1.players[i];
    &&& t1 == (TableView {
        players: t0.players.update(i, PlayerView { cards: p1.cards, ..t0.players[i] }),
        deck: t1.deck,
        ..t0
    })
    &&& p1.cards.len() == kept.len() + chosen.len()
    &&& p1.cards.subrange(0, kept.len() as int) == kept
    &&& forall|k: int| kept.len() <= k < p1.cards.len() ==> !(#[trigger] p1.cards[k])@.face_up
}

/// `b` follows `a` within the draw phase: the same players with the same balances (only
/// cards change), the same stakes, dealer, limits and community cards; the pot's history
/// only grows, by turns of the draw phase.
pub open spec fn draw_progress(a: TableView, b: TableView) -> bool {
    &&& a.players.len() == b.players.len()
    &&& forall|i: int|
        0 <= i < a.players.len() ==> (#[trigger] b.players[i]).account_id == a.players[i].account_id
            && b.players[i].name == a.players[i].name && b.players[i].balance == a.players[i].balance
    &&& b.pot.stakes == a.pot.stakes
    &&& b.dealer_position == a.dealer_position
    &&& b.raise_limit == a.raise_limit
    &&& b.big_blind_amount == a.big_blind_amount
    &&& b.community == a.community
    &&& a.pot.history.len() <= b.pot.history.len()
    &&& b.pot.history.subrange(0, a.pot.history.len() as int) == a.pot.history
    &&& forall|k: int| a.pot.history.len() <= k < b.pot.history.len() ==> (#[trigger] b.pot.history[k]).2 == 2
}

/// The player to act at `t` was asked for a draw turn, which took the log of answers from
/// `t.answers` to `log`: one choice between replacing cards and checking, then, when the
/// choice was to replace, the cards to replace.
#[verifier::opaque]
pub open spec fn draw_asked(t: TableView, log: AnswerLog) -> bool {
    let replace = log.actions.last() == Some(ActionOption::Replace);
    &&& log.actions.len() == t.answers.actions.len() + 1
    &&& log.actions.drop_last() == t.answers.actions
    &&& log.raises == t.answers.raises
    &&& replace ==> log.replacements.len() == t.answers.replacements.len() + 1
        && log.replacements.drop_last() == t.answers.replacements
    &&& !replace ==> log.replacements == t.answers.replacements
}

/// The cards chosen for replacement in the answers ending `log`: those given when the
/// choice was to replace, none otherwise.
pub open spec fn draw_chosen(log: AnswerLog) -> Seq<Card> {
    if log.actions.last() == Some(ActionOption::Replace) {
        match log.replacements.last() {
            Some(c) => c,
            None => Seq::empty(),
        }
    } else {
        Seq::empty()
    }
}

/// The action taken at the draw turn that got the answers ending `log`: `draw_answer` of
/// the choice and of how many cards were given for replacement.
pub open spec fn draw_answered(log: AnswerLog) -> Result<Action, &'static str> {
    let chosen = log.actions.last();
    let n: Option<usize> = if chosen == Some(ActionOption::Replace) {
        match log.replacements.last() {
            Some(c) => Some(c.len() as usize),
            None => None,
        }
    } else {
        None
    };
    draw_answer(chosen, n)
}

/// The deck cannot supply the replacements for the cards `chosen` of the hand of the player
/// to act at `t`, even with the discarded cards.
pub open spec fn draw_deck_short(t: TableView, chosen: Seq<Card>) -> bool {
    let hand = t.players[t.current_player_index as int].cards;
    t.deck.len() + (hand.len() - hand_after_discard(hand, chosen).len()) < chosen.len()
}

/// The player to act at `a` takes a draw turn that leaves the table at `b`: they are asked
/// for a draw turn, the answers got are those logged at `b`, and the action they give is
/// taken: with no cards chosen they check or replace nothing; otherwise the cards of their
/// hand matching those chosen are replaced. The turn is recorded in phase 2.
#[verifier::opaque]
pub open spec fn draw_turn_taken(a: TableView, b: TableView) -> bool {
    let log = b.answers;
    let t = answered(a, log);
    let i = a.current_player_index as int;
    let chosen = draw_chosen(log);
    &&& draw_asked(a, log)
    &&& draw_answered(log) matches Ok(act) && (chosen.len() == 0 ==> b == after_turn(t, i, act, 2, 0)) && (
    chosen.len() > 0 ==> {
        let mid = TableView { pot: t.pot, ..b };
        &&& replaced(t, mid, i, chosen)
        &&& b == after_turn(mid, i, act, 2, 0)
    })
}

/// The draw is over: all players but one have folded.
pub open spec fn draw_over(t: TableView) -> bool {
    count_folded(first_ids(t.pot.history), t.pot.history) + 1 == t.players.len()
}

/// One step of the draw phase from `a` to `b`: the draw is not over; a player who has folded
/// only passes the turn on, any other takes a draw turn, and the turn passes on.
pub open spec fn draw_step(a: TableView, b: TableView) -> bool {
    &&& !draw_over(a)
    &&& if folded_in(a.pot.history, a.players[a.current_player_index as int].account_id) {
        b == advanced(a)
    } else {
        exists|mid: TableView| #[trigger] draw_turn_taken(a, mid) && b == advanced(mid)
    }
}

/// The tables `tr` of a draw phase starting at `start`: each follows the one before by a
/// draw step, and the turn has not come back to the first player before the last table.
pub open spec fn draw_trace(tr: Seq<TableView>, start: TableView) -> bool {
    &&& tr.len() >= 1
    &&& tr[0] == start
    &&& forall|k: int| 0 <= k < tr.len() - 1 ==> draw_step(#[trigger] tr[k], tr[k + 1])
    &&& forall|k: int| 1 <= k < tr.len() - 1 ==> (#[trigger] tr[k]).current_player_index != start.current_player_index
}

/// A draw phase that started at `start` ended at `f` with result `r`: some trace of draw
/// steps leads from `start` to the last table; when `r` is `Ok` that table is `f`, and the
/// draw was over or the turn came back to the first player; when it is an error, the player
/// to act had not folded and was asked for a draw turn, the answers got are those logged at
/// `f`, nothing else changed, and those answers were refused, or the deck could not supply
/// the replacements they asked for.
#[verifier::opaque]
pub open spec fn draw_phase_played(start: TableView, f: TableView, r: Result<(), &'static str>) -> bool {
    exists|tr: Seq<TableView>| {
        &&& #[trigger] draw_trace(tr, start)
        &&& r is Ok ==> tr.last() == f && (draw_over(f) || (tr.len() > 1 && f.current_player_index
            == start.current_player_index))
        &&& r matches Err(e) ==> {
            let t = tr.last();
            &&& !draw_over(t)
            &&& !folded_in(t.pot.history, t.players[t.current_player_index as int].account_id)
            &&& f == answered(t, f.answers)
            &&& draw_asked(t, f.answers)
            &&& (draw_answered(f.answers) == Err::<Action, &'static str>(e) || (draw_answered(f.answers) is Ok
                && e == "There are no cards remaining in the deck, so no card can be dealt" && draw_deck_short(
                t,
                draw_chosen(f.answers),
            )))
        }
    }
}

/// A draw phase whose last turn was refused ended in that error.
proof fn lemma_draw_phase_failed(tr: Seq<TableView>, start: TableView, f: TableView, e: &'static str)
    requires
        draw_trace(tr, start),
        !draw_over(tr.last()),
        !folded_in(tr.last().pot.history, tr.last().players[tr.last().current_player_index as int].account_id),
        f == answered(tr.last(), f.answers),
        draw_asked(tr.last(), f.answers),
        draw_answered(f.answers) == Err::<Action, &'static str>(e) || (draw_answered(f.answers) is Ok
            && e == "There are no cards remaining in the deck, so no card can be dealt" && draw_deck_short(
            tr.last(),
            draw_chosen(f.answers),
        )),
    ensures
        draw_phase_played(start, f, Err(e)),
{
    reveal(draw_phase_played);
}

/// A draw phase whose trace ended, the draw over or the turn back to the first player,
/// ended well.
proof fn lemma_draw_phase_ended(tr: Seq<TableView>, start: TableView, f: TableView)
    requires
        draw_trace(tr, start),
        tr.last() == f,
        draw_over(f) || (tr.len() > 1 && f.current_player_index == start.current_player_index),
    ensures
        draw_phase_played(start, f, Ok(())),
{
    reveal(draw_phase_played);
}

/// The cards kept and the cards taken make up the whole sequence.
pub proof fn lemma_kept_taken_len(s: Seq<Card>, chosen: Seq<Card>)
    ensures
        kept_cards(s, chosen).len() + taken_cards(s, chosen).len() == s.len(),
    decreases s.len(),
{
    if s.len() > 0 {
        lemma_kept_taken_len(s.drop_last(), chosen);
    }
}

/// The hand of a player whose cards are turned face up at the showdown: taken back last card
/// first, and given again face up.
pub open spec fn flipped_hand(cards: Seq<Card>) -> Seq<Card> {
    cards.reverse().map_values(|c: Card| face_up_card(c))
}

/// The players after the cards of those who have not folded are turned face up.
pub open spec fn flipped_players(ps: Seq<PlayerView>, h: Seq<TurnView>) -> Seq<PlayerView> {
    ps.map_values(|p: PlayerView| if folded_in(h, p.account_id) { p } else { PlayerView { cards: flipped_hand(p.cards), ..p } })
}

/// A player's cards followed by the community cards.
fn hand_with(cards: &Vec<Card>, community: &Vec<Card>) -> (r: Vec<Card>)
    ensures
        r@ == cards@ + community@,
{
    let mut r = copy_cards(cards);
    let mut k: usize = 0;
    while k < community.len()
        invariant
            k <= community@.len(),
            r@ == cards@ + community@.subrange(0, k as int),
        decreases community@.len() - k,
    {
        r.push(community[k]);
        k = k + 1;
        assert(r@ =~= cards@ + community@.subrange(0, k as int));
    }
    assert(community@.subrange(0, community@.len() as int) =~= community@);
    r
}

/// The players who have not folded, in seat order, with the strength of the hand that
/// their cards make together with the community cards `c`.
pub open spec fn showdown_entries(ps: Seq<PlayerView>, h: Seq<TurnView>, c: Seq<Card>) -> Seq<(u128, HandRankSpec)>
    decreases ps.len(),
{
    if ps.len() == 0 {
        Seq::empty()
    } else if folded_in(h, ps.last().account_id) {
        showdown_entries(ps.drop_last(), h, c)
    } else {
        showdown_entries(ps.drop_last(), h, c).push((ps.last().account_id, spec_rank_hand(ps.last().cards + c)))
    }
}

/// The IDs of the players who have folded, in seat order.
pub open spec fn folded_ids(ps: Seq<PlayerView>, h: Seq<TurnView>) -> Seq<u128>
    decreases ps.len(),
{
    if ps.len() == 0 {
        Seq::empty()
    } else if folded_in(h, ps.last().account_id) {
        folded_ids(ps.drop_last(), h).push(ps.last().account_id)
    } else {
        folded_ids(ps.drop_last(), h)
    }
}

/// The winning order of a showdown: the players who have not folded, grouped by the
/// strength of the hands their cards make with the community cards `c`, strongest first
/// (ties in seat order), then the players who have folded.
pub open spec fn showdown_order(ps: Seq<PlayerView>, h: Seq<TurnView>, c: Seq<Card>) -> Seq<Seq<u128>> {
    strength_groups(showdown_entries(ps, h, c)).push(folded_ids(ps, h))
}

/// A showdown can be held: some player has not folded, and the cards of every such player
/// make, with the community cards `c`, a hand that can be ranked.
pub open spec fn showdown_ready(ps: Seq<PlayerView>, h: Seq<TurnView>, c: Seq<Card>) -> bool {
    &&& exists|i: int| 0 <= i < ps.len() && !folded_in(h, (#[trigger] ps[i]).account_id)
    &&& forall|i: int| 0 <= i < ps.len() && !folded_in(h, (#[trigger] ps[i]).account_id) ==> rank_hand_defined(ps[i].cards + c)
}

/// The players after each is paid their winnings `w`.
pub open spec fn paid_players(ps: Seq<PlayerView>, w: Seq<(u128, usize)>) -> Seq<PlayerView> {
    ps.map_values(|p: PlayerView| PlayerView { balance: p.balance + stake_of(w, p.account_id), ..p })
}

/// Players with the same balances seat by seat have the same sum of balances.
pub proof fn lemma_balances_same(a: Seq<PlayerView>, b: Seq<PlayerView>)
    requires
        a.len() == b.len(),
        forall|i: int| 0 <= i < a.len() ==> (#[trigger] a[i]).balance == b[i].balance,
    ensures
        balances(a) == balances(b),
    decreases a.len(),
{
    if a.len() > 0 {
        assert forall|i: int| 0 <= i < a.drop_last().len() implies (#[trigger] a.drop_last()[i]).balance == b.drop_last()[i].balance by {
            assert(a.drop_last()[i] == a[i] && b.drop_last()[i] == b[i]);
        }
        lemma_balances_same(a.drop_last(), b.drop_last());
        assert(a[a.len() - 1] == a.last() && b[b.len() - 1] == b.last());
    }
}

/// The IDs of the showdown entries and of the folded players are IDs of players.
pub proof fn lemma_showdown_ids(ps: Seq<PlayerView>, h: Seq<TurnView>, c: Seq<Card>)
    ensures
        forall|k: int| 0 <= k < showdown_entries(ps, h, c).len() ==> player_ids(ps).contains(#[trigger] showdown_entries(ps, h, c)[k].0),
        forall|k: int| 0 <= k < folded_ids(ps, h).len() ==> player_ids(ps).contains(#[trigger] folded_ids(ps, h)[k]),
    decreases ps.len(),
{
    if ps.len() > 0 {
        let q = ps.drop_last();
        lemma_showdown_ids(q, h, c);
        assert(ps[ps.len() - 1] == ps.last());
        assert(player_ids(ps)[ps.len() - 1] == ps.last().account_id);
        assert forall|k: int| 0 <= k < showdown_entries(ps, h, c).len() implies player_ids(ps).contains(#[trigger] showdown_entries(ps, h, c)[k].0) by {
            if k < showdown_entries(q, h, c).len() {
                assert(showdown_entries(ps, h, c)[k] == showdown_entries(q, h, c)[k]);
                let j = choose|j: int| 0 <= j < player_ids(q).len() && player_ids(q)[j] == showdown_entries(q, h, c)[k].0;
                assert(player_ids(ps)[j] == player_ids(q)[j]);
            }
        }
        assert forall|k: int| 0 <= k < folded_ids(ps, h).len() implies player_ids(ps).contains(#[trigger] folded_ids(ps, h)[k]) by {
            if k < folded_ids(q, h).len() {
                assert(folded_ids(ps, h)[k] == folded_ids(q, h)[k]);
                let j = choose|j: int| 0 <= j < player_ids(q).len() && player_ids(q)[j] == folded_ids(q, h)[k];
                assert(player_ids(ps)[j] == player_ids(q)[j]);
            }
        }
    }
}

/// Two or more players, none of whom has staked anything yet.
pub open spec fn n_ge_2_zero(t: TableView) -> bool {
    t.players.len() >= 2 && forall|i: int| 0 <= i < t.pot.stakes.len() ==> (#[trigger] t.pot.stakes[i]).1 == 0
}

/// A copy of a hand of cards.
fn copy_cards(cards: &Vec<Card>) -> (r: Vec<Card>)
    ensures
        r@ == cards@,
{
    let mut r: Vec<Card> = Vec::new();
    let mut i: usize = 0;
    while i < cards.len()
        invariant
            i <= cards@.len(),
            r@ == cards@.subrange(0, i as int),
        decreases cards@.len() - i,
    {
        r.push(cards[i]);
        i = i + 1;
        assert(r@ =~= cards@.subrange(0, i as int));
    }
    assert(cards@.subrange(0, cards@.len() as int) =~= cards@);
    r
}

impl<I: Input> Table<I> {
    /// The table is consistent.
    pub open spec fn wf(&self) -> bool {
        seated(self@)
    }

    /// A table without players, with a full deck and an empty pot.
    pub fn new(raise_limit: u32, big_blind_amount: u32) -> (t: Table<I>)
        ensures
            t.wf(),
            t@.players.len() == 0,
            t@.deck.len() == 52,
            t@.dealer_position == 0,
            t@.current_player_index == 0,
            t@.raise_limit == raise_limit,
            t@.big_blind_amount == big_blind_amount,
            t@.pot.history.len() == 0,
            t@.pot.stakes.len() == 0,
            t@.community.len() == 0,
            t@.answers == (AnswerLog { actions: Seq::empty(), raises: Seq::empty(), replacements: Seq::empty() }),
    {
        let ids: Vec<u128> = Vec::new();
        let pot = Pot::new_uuids(&ids);
        proof {
            assert(ids@.no_duplicates());
            lemma_zero_stakes_ids(ids@);
        }
        let t = Table {
            players: Vec::new(),
            deck: Deck::new(),
            dealer_position: 0,
            current_player_index: 0,
            raise_limit,
            big_blind_amount,
            input: I::new(),
            pot,
            community_cards: Vec::new(),
            answers: Ghost(AnswerLog { actions: Seq::empty(), raises: Seq::empty(), replacements: Seq::empty() }),
        };
        assert(t@.players =~= Seq::<PlayerView>::empty());
        assert(player_ids(t@.players) =~= Seq::<u128>::empty());
        proof {
            lemma_new_deck_counts(t@.deck);
            assert forall|r: Rank, su: Suit| #[trigger] table_count(t@, r, su) == 1 by {
                assert(hand_count(t@.players, r, su) == 0);
                assert(count_card(t@.community, r, su) == 0);
            }
        }
        t
    }

    /// Seats the players at the table and clears the pot for them: no turns, no stakes.
    /// Returns the players who were seated before.
    pub fn seat_players(&mut self, players: Vec<Player>) -> (old_players: Vec<Player>)
        requires
            old(self).wf(),
            player_ids(players@.map_values(|p: Player| p@)).no_duplicates(),
            players@.len() < u32::MAX,
            forall|i: int| 0 <= i < players@.len() ==> (#[trigger] players@[i])@.cards.len() == 0,
            forall|i: int| 0 <= i < old(self)@.players.len() ==> (#[trigger] old(self)@.players[i]).cards.len() == 0,
        ensures
            final(self).wf(),
            final(self)@ == (TableView {
                players: players@.map_values(|p: Player| p@),
                pot: PotView {
                    history: Seq::empty(),
                    stakes: zero_stakes(player_ids(players@.map_values(|p: Player| p@))),
                },
                ..old(self)@
            }),
            old_players@.map_values(|p: Player| p@) == old(self)@.players,
    {
        let ghost pv = players@.map_values(|p: Player| p@);
        let mut ids: Vec<u128> = Vec::new();
        let mut i: usize = 0;
        while i < players.len()
            invariant
                i <= players@.len(),
                pv == players@.map_values(|p: Player| p@),
                ids@ == player_ids(pv).subrange(0, i as int),
            decreases players@.len() - i,
        {
            ids.push(players[i].account_id());
            i = i + 1;
            assert(ids@ =~= player_ids(pv).subrange(0, i as int));
        }
        assert(player_ids(pv).subrange(0, players@.len() as int) =~= player_ids(pv));
        self.pot.clear_uuids(&ids);
        let mut old_players = players;
        std::mem::swap(&mut self.players, &mut old_players);
        proof {
            lemma_zero_stakes_ids(ids@);
            assert(self@.pot.history =~= Seq::<TurnView>::empty());
            let t0 = old(self)@;
            lemma_hand_count_empty(t0.players);
            assert forall|i: int| 0 <= i < pv.len() implies (#[trigger] pv[i]).cards.len() == 0 by {
                assert(pv[i] == players@[i]@);
            }
            lemma_hand_count_empty(pv);
            assert forall|r: Rank, su: Suit| #[trigger] table_count(self@, r, su) == 1 by {
                assert(table_count(t0, r, su) == 1);
            }
        }
        old_players
    }

    /// Lets the players, who hold no cards, leave the table; the pot keeps the round's
    /// history and stakes.
    pub fn take_players(&mut self) -> (ps: Vec<Player>)
        requires
            old(self).wf(),
            forall|i: int| 0 <= i < old(self)@.players.len() ==> (#[trigger] old(self)@.players[i]).cards.len() == 0,
        ensures
            final(self).wf(),
            ps@.map_values(|p: Player| p@) == old(self)@.players,
            final(self)@ == (TableView { players: Seq::empty(), ..old(self)@ }),
    {
        let ghost t0 = self@;
        let mut ps: Vec<Player> = Vec::new();
        std::mem::swap(&mut self.players, &mut ps);
        proof {
            assert(self@.players =~= Seq::<PlayerView>::empty());
            lemma_hand_count_empty(t0.players);
            assert(player_ids(self@.players) =~= Seq::<u128>::empty());
            assert forall|r: Rank, su: Suit| #[trigger] table_count(self@, r, su) == 1 by {
                assert(table_count(t0, r, su) == 1);
            }
        }
        ps
    }

    /// The turn goes to the dealer's seat.
    pub fn reset_turn_to_dealer(&mut self)
        requires
            old(self).wf(),
        ensures
            final(self).wf(),
            final(self)@ == (TableView { current_player_index: old(self)@.dealer_position, ..old(self)@ }),
    {
        self.current_player_index = self.dealer_position;
        proof {
            lemma_cards_kept_same(old(self)@, self@);
        }
    }

    /// The community cards.
    pub fn community_cards(&self) -> (c: &Vec<Card>)
        ensures
            c@ == self@.community,
    {
        &self.community_cards
    }

    /// The players, in seat order.
    pub fn players(&self) -> (p: &Vec<Player>)
        ensures
            p@.map_values(|x: Player| x@) == self@.players,
    {
        &self.players
    }

    /// The deck.
    pub fn deck(&self) -> (d: &Deck)
        ensures
            d@ == self@.deck,
    {
        &self.deck
    }

    /// The pot.
    pub fn pot(&self) -> (p: &Pot)
        ensures
            p@ == self@.pot,
    {
        &self.pot
    }

    /// The handler that the table asks players' choices of and shows the table through.
    pub closed spec fn handler(&self) -> I {
        self.input
    }

    /// The input handler, to be changed in place: what it becomes is the table's handler,
    /// and nothing else at the table changes.
    pub fn input_mut(&mut self) -> (i: &mut I)
        ensures
            *i == old(self).handler(),
            final(self).handler() == *final(i),
            final(self)@ == old(self)@,
    {
        &mut self.input
    }

    /// The position of the dealer.
    pub fn dealer_position(&self) -> (d: usize)
        ensures
            d == self@.dealer_position,
    {
        self.dealer_position
    }

    /// The input handler.
    pub fn input(&self) -> (i: &I)
        ensures
            *i == self.handler(),
    {
        &self.input
    }

    /// The big blind (in seven card stud, the bring-in).
    pub fn big_blind_amount(&self) -> (b: u32)
        ensures
            b == self@.big_blind_amount,
    {
        self.big_blind_amount
    }

    /// The position of the player to act.
    pub fn current_player_index(&self) -> (c: usize)
        ensures
            c == self@.current_player_index,
    {
        self.current_player_index
    }

    /// Counts the players who have nothing left to bet.
    pub fn number_of_players_all_in(&self) -> (n: usize)
        ensures
            n == count_all_in(self@.players),
    {
        let ghost ps = self@.players;
        let mut n: usize = 0;
        let mut i: usize = 0;
        assert(ps.subrange(0, 0) =~= Seq::<PlayerView>::empty());
        while i < self.players.len()
            invariant
                i <= self.players@.len(),
                ps == self@.players,
                n == count_all_in(ps.subrange(0, i as int)),
                n <= i,
            decreases self.players@.len() - i,
        {
            assert(ps.subrange(0, i + 1).drop_last() =~= ps.subrange(0, i as int));
            assert(ps[i as int] == self.players@[i as int]@);
            if self.players[i].balance() == 0 {
                n = n + 1;
            }
            i = i + 1;
        }
        assert(ps.subrange(0, ps.len() as int) =~= ps);
        n
    }

    /// Records the turn of the player in seat `i`, who takes action `a` and pays `paid`.
    fn record_turn(&mut self, i: usize, a: Action, phase: usize, paid: usize)
        requires
            old(self).wf(),
            i < old(self)@.players.len(),
            old(self)@.players[i as int].balance >= paid,
            crate::pot::turn_allowed(old(self)@.pot.stakes, old(self)@.players[i as int].account_id, a),
        ensures
            final(self).wf(),
            final(self)@ == after_turn(old(self)@, i as int, a, phase, paid as nat),
            money(final(self)@) + total(old(self)@.pot.stakes) + paid == money(old(self)@) + total(
                final(self)@.pot.stakes,
            ),
    {
        let ghost t0 = self@;
        let id = self.players[i].account_id();
        let cards = copy_cards(self.players[i].cards());
        self.pot.add_turn(&id, a, phase, cards);
        let r = self.players[i].bet(paid);
        proof {
            let p0 = t0.players[i as int];
            let p1 = PlayerView { balance: (p0.balance - paid) as nat, ..p0 };
            assert(self@.players =~= t0.players.update(i as int, p1));
            lemma_balances_update(t0.players, i as int, p1);
            lemma_seated_keys(t0);
            lemma_set_stake(t0.pot.stakes, id, 0);
            assert(ids_of(self@.pot.stakes) == ids_of(t0.pot.stakes)) by {
                let a_amt = crate::pot::money_amount(a);
                if a_amt is Some || a == Action::Call {
                    let amt: usize = if a_amt is Some { a_amt->0 } else { largest(t0.pot.stakes) as usize };
                    lemma_set_stake(t0.pot.stakes, id, amt);
                }
            }
            assert(player_ids(self@.players) =~= player_ids(t0.players));
            lemma_hand_count_update(t0.players, i as int, p1);
            assert forall|r: Rank, su: Suit| #[trigger] table_count(self@, r, su) == 1 by {
                assert(table_count(t0, r, su) == 1);
            }
        }
    }

    /// The first and second players after the dealer bet blind: the dealer's seat antes half
    /// the big blind, the next seat (or the first, when the dealer sits last) the big blind,
    /// and the turn moves on twice. When a blind would not raise the player's stake, or the
    /// player cannot pay it, nothing is played and an error is returned.
    pub fn play_blinds(&mut self) -> (r: Result<(), &'static str>)
        requires
            old(self).wf(),
            old(self)@.dealer_position < old(self)@.players.len(),
            old(self)@.current_player_index < usize::MAX - 1,
        ensures
            final(self).wf(),
            r is Ok <==> blinds_payable(old(self)@),
            r is Ok ==> final(self)@ == after_blinds(old(self)@),
            r is Err ==> final(self)@ == old(self)@,
            r matches Err(e) ==> super::round::blind_error(e),
            (r is Ok && old(self)@.players.len() >= 2 && forall|i: int|
                0 <= i < old(self)@.pot.stakes.len() ==> (#[trigger] old(self)@.pot.stakes[i]).1 == 0) ==> money(final(self)@)
                == money(old(self)@),
    {
        let ghost t0 = self@;
        proof {
            lemma_seated_keys(t0);
        }
        let small: usize = (self.big_blind_amount / 2) as usize;
        let big: usize = self.big_blind_amount as usize;
        let d = self.dealer_position;
        let s: usize = if d + 1 < self.players.len() { d + 1 } else { 0 };
        let id_d = self.players[d].account_id();
        let id_s = self.players[s].account_id();
        let stake_d = self.pot.get_player_stake(&id_d);
        let bal_d = self.players[d].balance();
        proof {
            lemma_index_of(t0.pot.stakes, d as int);
            lemma_index_of(t0.pot.stakes, s as int);
        }
        if !(stake_d < small) {
            return Err("A blind must raise the player's stake");
        }
        if bal_d < small {
            return Err("Player does not have enough money remaining to make this bet");
        }
        proof {
            lemma_set_stake(t0.pot.stakes, id_d, small);
        }
        let stake_s: usize = if s == d { small } else { self.pot.get_player_stake(&id_s) };
        let bal_s: usize = if s == d { bal_d - small } else { self.players[s].balance() };
        let ghost t1 = after_first_blind(t0);
        proof {
            assert(ids_of(t1.pot.stakes) == ids_of(t0.pot.stakes)) by {
                assert(has_player(t0.pot.stakes, id_d));
            }
            assert(player_ids(t1.players) =~= player_ids(t0.players));
            lemma_seated_keys(t1);
            lemma_index_of(t1.pot.stakes, s as int);
            lemma_index_of(t1.pot.stakes, d as int);
        }
        if !(stake_s < big) {
            return Err("A blind must raise the player's stake");
        }
        if bal_s < big {
            return Err("Player does not have enough money remaining to make this bet");
        }
        proof {
            lemma_set_stake(t0.pot.stakes, id_d, small);
            lemma_index_of(t0.pot.stakes, d as int);
        }
        self.record_turn(d, Action::Ante(small), 0, small);
        assert(self@ == t1);
        proof {
            lemma_set_stake(t1.pot.stakes, id_s, big);
        }
        self.record_turn(s, Action::Ante(big), 0, big);
        proof {
            if n_ge_2_zero(t0) {
                assert(t0.pot.stakes[d as int].1 == 0);
                assert(stake_d == 0);
                assert(total(t1.pot.stakes) == total(t0.pot.stakes) + small);
                assert(s != d);
                assert(t1.pot.stakes[s as int] == t0.pot.stakes[s as int]);
                assert(stake_s == 0);
            }
        }
        self.increment_player_index();
        self.increment_player_index();
        Ok(())
    }

    /// The player in seat `i` antes `amount` in the opening phase: the turn is recorded and
    /// the amount leaves their balance for their stake. When the ante would not raise the
    /// player's stake, or the player cannot pay it, nothing is played and an error is
    /// returned.
    pub fn play_ante(&mut self, i: usize, amount: usize) -> (r: Result<(), &'static str>)
        requires
            old(self).wf(),
            i < old(self)@.players.len(),
        ensures
            final(self).wf(),
            r is Ok <==> blind_payable(old(self)@, i as int, amount as nat),
            r is Ok ==> final(self)@ == after_turn(old(self)@, i as int, Action::Ante(amount), 0, amount as nat),
            r is Err ==> final(self)@ == old(self)@,
            r matches Err(e) ==> super::round::blind_error(e),
            (r is Ok && seat_stake(old(self)@, i as int) == 0) ==> money(final(self)@) == money(old(self)@),
    {
        let ghost t0 = self@;
        proof {
            lemma_seated_keys(t0);
        }
        let id = self.players[i].account_id();
        let stake = self.pot.get_player_stake(&id);
        let bal = self.players[i].balance();
        proof {
            lemma_index_of(t0.pot.stakes, i as int);
        }
        if !(stake < amount) {
            return Err("A blind must raise the player's stake");
        }
        if bal < amount {
            return Err("Player does not have enough money remaining to make this bet");
        }
        proof {
            lemma_set_stake(t0.pot.stakes, id, amount);
        }
        self.record_turn(i, Action::Ante(amount), 0, amount);
        Ok(())
    }

    /// Gives the turn to the player in seat `i`.
    pub fn set_current_player(&mut self, i: usize)
        requires
            old(self).wf(),
        ensures
            final(self).wf(),
            final(self)@ == (TableView { current_player_index: i, ..old(self)@ }),
    {
        self.current_player_index = i;
        proof {
            lemma_cards_kept_same(old(self)@, self@);
        }
    }

    /// Offers the player in seat `i` the actions `options` and returns their choice, which
    /// is added to the log of answers.
    fn ask_action(&mut self, options: Vec<ActionOption>, i: usize) -> (r: Option<ActionOption>)
        requires
            old(self).wf(),
            i < old(self)@.players.len(),
        ensures
            final(self).wf(),
            final(self)@ == answered(
                old(self)@,
                AnswerLog { actions: old(self)@.answers.actions.push(r), ..old(self)@.answers },
            ),
    {
        let r = self.input.input_action_options(options, &self.players[i]);
        self.answers = Ghost(AnswerLog { actions: self.answers@.actions.push(r), ..self.answers@ });
        proof {
            lemma_cards_kept_same(old(self)@, self@);
        }
        r
    }

    /// Asks the player in seat `i` for an amount to raise by, at most `limit`; the answer is
    /// added to the log of answers.
    fn ask_raise(&mut self, limit: u32, i: usize) -> (r: Option<u32>)
        requires
            old(self).wf(),
            i < old(self)@.players.len(),
        ensures
            final(self).wf(),
            final(self)@ == answered(
                old(self)@,
                AnswerLog { raises: old(self)@.answers.raises.push(r), ..old(self)@.answers },
            ),
    {
        let r = self.input.request_raise_amount(limit, &self.players[i]);
        self.answers = Ghost(AnswerLog { raises: self.answers@.raises.push(r), ..self.answers@ });
        proof {
            lemma_cards_kept_same(old(self)@, self@);
        }
        r
    }

    /// Asks the player in seat `i` for the cards to replace; the answer is added to the log
    /// of answers.
    fn ask_cards(&mut self, i: usize) -> (r: Option<Vec<Card>>)
        requires
            old(self).wf(),
            i < old(self)@.players.len(),
        ensures
            final(self).wf(),
            final(self)@ == answered(
                old(self)@,
                AnswerLog { replacements: old(self)@.answers.replacements.push(cards_of(r)), ..old(self)@.answers },
            ),
    {
        let r = self.input.request_replace_cards(&self.players[i]);
        self.answers = Ghost(AnswerLog { replacements: self.answers@.replacements.push(cards_of(r)), ..self.answers@ });
        proof {
            lemma_cards_kept_same(old(self)@, self@);
        }
        r
    }

    /// The player to act takes a bet turn: they are offered the actions that `legal_bet`
    /// allows (when short of the call amount, `offer_all_in` says whether all in and fold are
    /// offered, or call, raise and fold as in hold'em), asked for a raise amount when they
    /// raise, and the action is recorded with what they pay. When the answer is missing or
    /// is not a legal action, nothing is played and an error is returned.
    pub fn take_bet_turn(&mut self, phase: usize, raised: bool, offer_all_in: bool) -> (r: Result<Action, &'static str>)
        requires
            old(self).wf(),
            old(self)@.current_player_index < old(self)@.players.len(),
            old(self)@.players[old(self)@.current_player_index as int].balance > 0,
            money(old(self)@) <= usize::MAX,
        ensures
            final(self).wf(),
            bet_asked(old(self)@, raised, final(self)@.answers),
            r == bet_answered(old(self)@, raised, final(self)@.answers),
            r matches Ok(a) ==> {
                let t = old(self)@;
                let i = t.current_player_index as int;
                &&& legal_bet(call_amount(t), seat_stake(t, i) as usize, t.players[i].balance as usize, raised, a)
                &&& final(self)@ == after_bet(answered(t, final(self)@.answers), a, phase)
                &&& money(final(self)@) == money(t)
                &&& total(final(self)@.pot.stakes) == total(t.pot.stakes) + bet_paid(call_amount(t), seat_stake(t, i) as usize, a)
            },
            r is Err ==> final(self)@ == answered(old(self)@, final(self)@.answers),
    {
        let ghost t0 = self@;
        proof {
            lemma_seated_keys(t0);
            lemma_total_bounds(t0.pot.stakes);
        }
        let i = self.current_player_index;
        let id = self.players[i].account_id();
        let call = self.pot.get_call_amount();
        let stake = self.pot.get_player_stake(&id);
        let bal = self.players[i].balance();
        proof {
            lemma_index_of(t0.pot.stakes, i as int);
            lemma_balance_le(t0.players, i as int);
        }
        assert(stake + bal <= money(t0));
        let options = bet_options(call, stake, bal, raised, offer_all_in);
        let chosen = self.ask_action(options, i);
        let asks = match chosen {
            Some(ActionOption::Raise) => (!raised && call == stake) || #[verifier::truncate] (bal as u32)
                > #[verifier::truncate] (call as u32),
            _ => false,
        };
        let raise_by = if asks {
            let limit = bet_raise_limit(self.raise_limit, call, stake, bal, raised);
            self.ask_raise(limit, i)
        } else {
            None
        };
        let decided = bet_action(call, stake, bal, raised, chosen, raise_by);
        let ghost t1 = self@;
        proof {
            assert(call == call_amount(t0));
            assert(stake == seat_stake(t0, i as int) as usize);
            assert(bal == t0.players[i as int].balance as usize);
            assert(t1.answers.actions.last() == chosen);
            assert(asks == asks_raise(call, stake, bal, raised, chosen));
            assert(t1.answers.actions.drop_last() =~= t0.answers.actions);
            if asks {
                assert(t1.answers.raises.drop_last() =~= t0.answers.raises);
                assert(t1.answers.raises.last() == raise_by);
            }
            reveal(bet_asked);
            reveal(bet_answered);
            assert(bet_asked(t0, raised, t1.answers));
            assert(bet_answered(t0, raised, t1.answers) == decided);
            assert(t1 == answered(t0, t1.answers));
        }
        let action = match decided {
            Ok(a) => a,
            Err(e) => {
                return Err(e);
            },
        };
        let paid: usize = match action {
            Action::Raise(x) => x - stake,
            Action::AllIn(x) => x - stake,
            Action::Call => call - stake,
            _ => 0,
        };
        proof {
            let amt: usize = match action {
                Action::Raise(x) => x,
                Action::AllIn(x) => x,
                Action::Call => call,
                _ => stake,
            };
            lemma_set_stake(t0.pot.stakes, id, amt);
        }
        self.record_turn(i, action, phase, paid);
        Ok(action)
    }

    /// A bet phase. Betting starts with the dealer's seat (or, when `from_dealer` is false,
    /// with the player whose turn it is) and goes round the table; players who folded or
    /// have nothing left are passed over, every other player takes a bet turn. The phase
    /// ends when the turn comes back to the last player who raised (or to the first, when
    /// nobody raised), when all players but one have folded, or when all players but one
    /// are all in and the player to act has matched the call.
    ///
    /// The money at the table stays the same: what leaves the balances enters the stakes.
    /// Only balances change among the players, and the history grows by turns of this phase.
    #[verifier::rlimit(100)]
    #[verifier::spinoff_prover]
    pub fn play_bet_phase(&mut self, phase_number: usize, from_dealer: bool, offer_all_in: bool, show_balances: bool) -> (r: Result<(), &'static str>)
        requires
            old(self).wf(),
            old(self)@.players.len() > 0,
            from_dealer ==> old(self)@.dealer_position < old(self)@.players.len(),
            !from_dealer ==> old(self)@.current_player_index < old(self)@.players.len(),
            money(old(self)@) <= usize::MAX,
        ensures
            final(self).wf(),
            money(final(self)@) == money(old(self)@),
            bet_progress(old(self)@, final(self)@, phase_number),
            final(self)@.current_player_index < final(self)@.players.len(),
            forall|k: int| 0 <= k < old(self)@.players.len() ==> #[trigger] holdings(final(self)@, k) == holdings(old(self)@, k),
            bet_phase_played(bet_start(old(self)@, from_dealer), final(self)@, r, phase_number),
    {
        let ghost t0 = self@;
        let ghost m = money(t0);
        let n = self.players.len();
        if from_dealer {
            self.current_player_index = self.dealer_position;
        }
        proof {
            lemma_cards_kept_same(t0, self@);
        }
        let ghost start = self@;
        assert(start == bet_start(t0, from_dealer));
        let mut last_raise_player_index = self.current_player_index;
        let mut raise_has_occurred = false;
        let ghost mut steps: nat = n as nat;
        let ghost mut tr: Seq<BetState> = seq![(start, start.current_player_index, false)];
        proof {
            assert(self@.pot.history.subrange(0, t0.pot.history.len() as int) =~= t0.pot.history);
            assert(bet_progress(t0, self@, phase_number));
        }
        let mut failure: Option<&'static str> = None;
        loop
            invariant_except_break
                failure is None,
                tr.last() == (self@, last_raise_player_index, raise_has_occurred),
                1 <= steps <= n,
                self@.current_player_index + steps == last_raise_player_index
                    || self@.current_player_index + steps == last_raise_player_index + n,
                tr.len() > 1 ==> self@.current_player_index != last_raise_player_index,
            invariant
                self.wf(),
                self@.players.len() == n,
                n > 0,
                bet_progress(t0, self@, phase_number),
                money(self@) == m,
                m == money(t0),
                t0 == old(self)@,
                m <= usize::MAX,
                self@.current_player_index < n,
                last_raise_player_index < n,
                start == bet_start(t0, from_dealer),
                bet_trace(tr, start, phase_number),
                forall|k: int| 0 <= k < n ==> #[trigger] holdings(self@, k) == holdings(t0, k),
            ensures
                failure is None ==> bet_ended(tr) && tr.last() == (self@, last_raise_player_index, raise_has_occurred),
                failure matches Some(e) ==> bet_phase_played(start, self@, Err(e), phase_number),
            decreases m - total(self@.pot.stakes), steps,
        {
            let ghost t1 = self@;
            proof {
                lemma_seated_keys(t1);
                lemma_first_ids_bounded(t1.pot);
                lemma_count_folded_le(first_ids(t1.pot.history), t1.pot.history);
                lemma_count_all_in_le(t1.players);
            }
            if self.pot.number_of_players_folded() + 1 == n as u32 {
                assert(bet_over(t1));
                break;
            }
            let i = self.current_player_index;
            let id = self.players[i].account_id();
            let player_matched_call = self.pot.get_call_amount() == self.pot.get_player_stake(&id);
            proof {
                lemma_index_of(t1.pot.stakes, i as int);
            }
            if self.number_of_players_all_in() + 1 == n && player_matched_call {
                assert(bet_over(t1));
                break;
            }
            assert(!bet_over(t1));
            let mut raised_now = false;
            let ghost next: BetState;
            if !(self.pot.player_has_folded(&id) || self.players[i].balance() == 0) {
                proof {
                    lemma_first_ids_distinct(t1.pot.history);
                    lemma_stake_sum_le_total(first_ids(t1.pot.history), t1.pot.stakes);
                }
                self.input.display_pot(self.pot.get_total_stake(), &self.players);
                if show_balances {
                    self.input.display_player_balances(&self.players);
                }
                self.input.display_current_player(&self.players[i]);
                self.input.display_player_cards_to_player(&self.players[i]);
                let turn = self.take_bet_turn(phase_number, raise_has_occurred, offer_all_in);
                match turn {
                    Ok(a) => {
                        proof {
                            let t2 = self@;
                            let ta = answered(t1, t2.answers);
                            next = bet_turn((ta, last_raise_player_index, raise_has_occurred), a, phase_number);
                            assert(bet_progress(t0, t2, phase_number) && bet_step(tr.last(), next, phase_number)
                                && forall|k: int| 0 <= k < n ==> #[trigger] holdings(t2, k) == holdings(t0, k)) by {
                                lemma_bet_progress_turn(t0, t1, t2, a, phase_number);
                                lemma_bet_step_turn(tr.last(), t2, a, phase_number);
                                lemma_cards_kept_same(t1, ta);
                                lemma_bet_turn_holdings(ta, raise_has_occurred, a, phase_number);
                                assert forall|k: int| 0 <= k < n implies #[trigger] holdings(t2, k) == holdings(t0, k) by {
                                    assert(holdings(t2, k) == holdings(ta, k));
                                    assert(holdings(ta, k) == holdings(t1, k));
                                }
                            }
                        }
                        if let Action::Raise(_) = a {
                            last_raise_player_index = i;
                            raise_has_occurred = true;
                            raised_now = true;
                        }
                    },
                    Err(e) => {
                        proof {
                            let f = self@;
                            assert(bet_phase_played(start, f, Err(e), phase_number) && money(f) == m && bet_progress(t0, f, phase_number)
                                && forall|k: int| 0 <= k < n ==> #[trigger] holdings(f, k) == holdings(t0, k)) by {
                                assert(tr.last().0 == t1);
                                lemma_bet_phase_failed(tr, start, phase_number, f, e);
                                lemma_answered_same(t0, t1, f.answers, phase_number);
                                assert forall|k: int| 0 <= k < n implies #[trigger] holdings(f, k) == holdings(t0, k) by {
                                    assert(holdings(f, k) == holdings(t1, k));
                                }
                            }
                        }
                        failure = Some(e);
                        break;
                    },
                }
            } else {
                proof {
                    next = (advanced(t1), last_raise_player_index, raise_has_occurred);
                    assert(bet_step(tr.last(), next, phase_number));
                }
            }
            proof {
                lemma_total_bounds(self@.pot.stakes);
                if raised_now {
                    steps = n as nat;
                }
            }
            let ghost before_move = self@;
            self.increment_player_index();
            proof {
                assert forall|k: int| 0 <= k < n implies #[trigger] holdings(self@, k) == holdings(t0, k) by {
                    assert(holdings(self@, k) == holdings(before_move, k));
                }
                steps = (steps - 1) as nat;
                let prev = tr;
                assert(next == (self@, last_raise_player_index, raise_has_occurred));
                lemma_bet_trace_push(prev, start, phase_number, next);
                tr = prev.push(next);
            }
            if self.current_player_index == last_raise_player_index {
                break;
            }
        }
        match failure {
            Some(e) => Err(e),
            None => {
                proof {
                    lemma_bet_phase_ended(tr, start, phase_number, self@);
                }
                Ok(())
            },
        }
    }

    /// Deals a card from the deck to the player in seat `i`, face up or down. When the deck
    /// is empty, nothing changes and an error is returned.
    pub fn deal_to_player(&mut self, i: usize, face_up: bool) -> (r: Result<(), String>)
        requires
            old(self).wf(),
            i < old(self)@.players.len(),
        ensures
            final(self).wf(),
            r is Err <==> old(self)@.deck.len() == 0,
            r is Err ==> final(self)@ == old(self)@,
            r is Ok ==> dealt_to_player(old(self)@, final(self)@, i as int, face_up) && final(self)@ == (TableView {
                players: final(self)@.players,
                deck: final(self)@.deck,
                ..old(self)@
            }),
    {
        let ghost t0 = self@;
        let mut card = match self.deck.deal() {
            Ok(c) => c,
            Err(e) => {
                return Err(e);
            },
        };
        let ghost c0 = card;
        card.set_face_up(face_up);
        self.players[i].obtain_card(card);
        proof {
            let p0 = t0.players[i as int];
            let p1 = PlayerView { cards: p0.cards.push(card), ..p0 };
            assert(self@.players =~= t0.players.update(i as int, p1));
            assert(self@.players[i as int].cards.drop_last() =~= p0.cards);
            lemma_count_dealt(t0.deck, c0, self@.deck);
            lemma_count_push(p0.cards, card);
            lemma_hand_count_update(t0.players, i as int, p1);
            assert(player_ids(self@.players) =~= player_ids(t0.players));
            assert forall|r: Rank, su: Suit| #[trigger] table_count(self@, r, su) == 1 by {
                assert(table_count(t0, r, su) == 1);
                assert(is_card(c0, r, su) == is_card(card, r, su));
            }
            assert(dealt_from(t0.deck, c0, self@.deck));
            assert(self@.players[i as int].cards.last() == card);
        }
        Ok(())
    }

    /// Hands the card of the rank and suit of `card` from the deck to the player in seat `i`,
    /// face up or down. When the deck does not hold that card, nothing changes and an error
    /// is returned.
    pub fn deal_card_to_player(&mut self, i: usize, card: &Card, face_up: bool) -> (r: Result<(), String>)
        requires
            old(self).wf(),
            i < old(self)@.players.len(),
        ensures
            final(self).wf(),
            r is Ok <==> crate::deck::holds_card(old(self)@.deck, card@),
            r is Err ==> final(self)@ == old(self)@,
            r is Ok ==> dealt_to_player(old(self)@, final(self)@, i as int, face_up) && final(self)@ == (TableView {
                players: final(self)@.players,
                deck: final(self)@.deck,
                ..old(self)@
            }),
            r is Ok ==> final(self)@.players[i as int].cards.last()@ == (CardView { face_up, ..card@ }),
    {
        let ghost t0 = self@;
        let mut taken = match self.deck.take_card(card) {
            Ok(c) => c,
            Err(e) => {
                return Err(e);
            },
        };
        let ghost c0 = taken;
        taken.set_face_up(face_up);
        self.players[i].obtain_card(taken);
        proof {
            let p0 = t0.players[i as int];
            let p1 = PlayerView { cards: p0.cards.push(taken), ..p0 };
            assert(self@.players =~= t0.players.update(i as int, p1));
            assert(self@.players[i as int].cards.drop_last() =~= p0.cards);
            lemma_count_dealt(t0.deck, c0, self@.deck);
            lemma_count_push(p0.cards, taken);
            lemma_hand_count_update(t0.players, i as int, p1);
            assert(player_ids(self@.players) =~= player_ids(t0.players));
            assert forall|r: Rank, su: Suit| #[trigger] table_count(self@, r, su) == 1 by {
                assert(table_count(t0, r, su) == 1);
                assert(is_card(c0, r, su) == is_card(taken, r, su));
            }
            assert(dealt_from(t0.deck, c0, self@.deck));
            assert(self@.players[i as int].cards.last() == taken);
        }
        Ok(())
    }

    /// Deals a card from the deck to the community cards, face up or down. When the deck is
    /// empty, nothing changes and an error is returned.
    pub fn deal_community_card(&mut self, face_up: bool) -> (r: Result<(), String>)
        requires
            old(self).wf(),
        ensures
            final(self).wf(),
            r is Err <==> old(self)@.deck.len() == 0,
            r is Err ==> final(self)@ == old(self)@,
            r is Ok ==> exists|c: Card| {
                &&& dealt_from(old(self)@.deck, c, final(self)@.deck)
                &&& final(self)@.community.len() == old(self)@.community.len() + 1
                &&& final(self)@.community.drop_last() == old(self)@.community
                &&& (#[trigger] final(self)@.community.last())@ == (CardView { face_up, ..c@ })
            },
            r is Ok ==> final(self)@ == (TableView {
                community: final(self)@.community,
                deck: final(self)@.deck,
                ..old(self)@
            }),
    {
        let ghost t0 = self@;
        let mut card = match self.deck.deal() {
            Ok(c) => c,
            Err(e) => {
                return Err(e);
            },
        };
        let ghost c0 = card;
        card.set_face_up(face_up);
        self.community_cards.push(card);
        proof {
            assert(self@.community.drop_last() =~= t0.community);
            lemma_count_dealt(t0.deck, c0, self@.deck);
            lemma_count_push(t0.community, card);
            assert forall|r: Rank, su: Suit| #[trigger] table_count(self@, r, su) == 1 by {
                assert(table_count(t0, r, su) == 1);
                assert(is_card(c0, r, su) == is_card(card, r, su));
            }
            assert(dealt_from(t0.deck, c0, self@.deck));
            assert(self@.community.last() == card);
        }
        Ok(())
    }

    /// A round of dealing: each player in seat order (or, when `only_unfolded`, each player
    /// who has not folded) is dealt a card, face up or down as `face_up` says. When the deck
    /// runs out, an error is returned.
    pub fn deal_round(&mut self, only_unfolded: bool, face_up: bool) -> (r: Result<(), String>)
        requires
            old(self).wf(),
        ensures
            final(self).wf(),
            r is Ok <==> old(self)@.deck.len() >= count_dealt_seats(old(self)@, old(self)@.players.len() as int, only_unfolded),
            r is Ok ==> round_dealt(old(self)@, final(self)@, only_unfolded, face_up),
            final(self)@ == (TableView { players: final(self)@.players, deck: final(self)@.deck, ..old(self)@ }),
            final(self)@.players.len() == old(self)@.players.len(),
            forall|k: int| 0 <= k < old(self)@.players.len() ==> #[trigger] final(self)@.players[k] == (PlayerView {
                cards: final(self)@.players[k].cards,
                ..old(self)@.players[k]
            }),
    {
        let ghost t0 = self@;
        let n = self.players.len();
        let mut i: usize = 0;
        while i < n
            invariant
                self.wf(),
                i <= n,
                n == t0.players.len(),
                t0 == old(self)@,
                self@ == (TableView { players: self@.players, deck: self@.deck, ..t0 }),
                self@.players.len() == n,
                self@.deck.len() + count_dealt_seats(t0, i as int, only_unfolded) == t0.deck.len(),
                forall|k: int| i <= k < n ==> #[trigger] self@.players[k] == t0.players[k],
                forall|k: int| 0 <= k < i ==> {
                    let p0 = t0.players[k];
                    let p1 = #[trigger] self@.players[k];
                    &&& dealt_seat(t0, k, only_unfolded) ==> {
                        &&& p1 == (PlayerView { cards: p1.cards, ..p0 })
                        &&& p1.cards.len() == p0.cards.len() + 1
                        &&& p1.cards.drop_last() == p0.cards
                        &&& p1.cards.last()@.face_up == face_up
                    }
                    &&& !dealt_seat(t0, k, only_unfolded) ==> p1 == p0
                },
            decreases n - i,
        {
            let id = self.players[i].account_id();
            let deal_here = !only_unfolded || !self.pot.player_has_folded(&id);
            assert(deal_here == dealt_seat(t0, i as int, only_unfolded));
            if deal_here {
                let ghost t1 = self@;
                match self.deal_to_player(i, face_up) {
                    Ok(()) => {
                        proof {
                            let c = choose|c: Card| {
                                &&& dealt_from(t1.deck, c, self@.deck)
                                &&& self@.players.len() == t1.players.len()
                                &&& self@.players[i as int].cards.len() == t1.players[i as int].cards.len() + 1
                                &&& self@.players[i as int].cards.drop_last() == t1.players[i as int].cards
                                &&& (#[trigger] self@.players[i as int].cards.last())@ == (CardView { face_up, ..c@ })
                                &&& self@.players == t1.players.update(i as int, PlayerView { cards: self@.players[i as int].cards, ..t1.players[i as int] })
                            };
                            assert(self@.deck.len() + 1 == t1.deck.len());
                        }
                    },
                    Err(e) => {
                        proof {
                            lemma_count_dealt_seats_le(t0, i as int, n as int, only_unfolded);
                        }
                        return Err(e);
                    },
                }
            }
            i = i + 1;
        }
        Ok(())
    }

    /// The player in seat `i` replaces the cards of their hand that match `chosen`: their
    /// hand is taken back (last card first), the matching cards go back to the deck, last
    /// first, and the player is dealt as many cards face down as `chosen` names, after the
    /// cards they kept. When the deck cannot supply them, nothing changes and an error is
    /// returned.
    pub fn replace_cards(&mut self, i: usize, chosen: &Vec<Card>) -> (r: Result<(), String>)
        requires
            old(self).wf(),
            i < old(self)@.players.len(),
        ensures
            final(self).wf(),
            ({
                let hand = old(self)@.players[i as int].cards;
                let kept = hand_after_discard(hand, chosen@);
                &&& r is Ok <==> old(self)@.deck.len() + (hand.len() - kept.len()) >= chosen@.len()
                &&& r is Err ==> final(self)@ == old(self)@
                &&& r is Ok ==> {
                    let p1 = final(self)@.players[i as int];
                    &&& final(self)@ == (TableView {
                        players: old(self)@.players.update(i as int, PlayerView { cards: p1.cards, ..old(self)@.players[i as int] }),
                        deck: final(self)@.deck,
                        ..old(self)@
                    })
                    &&& p1.cards.len() == kept.len() + chosen@.len()
                    &&& p1.cards.subrange(0, kept.len() as int) == kept
                    &&& forall|k: int| kept.len() <= k < p1.cards.len() ==> !(#[trigger] p1.cards[k])@.face_up
                }
            }),
    {
        let ghost t0 = self@;
        let ghost p0 = t0.players[i as int];
        let ghost rev = p0.cards.reverse();
        // split the hand, taken back last card first, into the cards kept and those taken
        let cards = copy_cards(self.players[i].cards());
        let mut back: Vec<Card> = Vec::new();
        let mut j: usize = cards.len();
        while j > 0
            invariant
                j <= cards@.len(),
                cards@ == p0.cards,
                back@ == p0.cards.subrange(j as int, cards@.len() as int).reverse(),
            decreases j,
        {
            j = j - 1;
            back.push(cards[j]);
            assert(back@ =~= p0.cards.subrange(j as int, cards@.len() as int).reverse());
        }
        assert(p0.cards.subrange(0, cards@.len() as int) =~= p0.cards);
        let mut kept: Vec<Card> = Vec::new();
        let mut taken: Vec<Card> = Vec::new();
        let mut k: usize = 0;
        assert(back@.subrange(0, 0) =~= Seq::<Card>::empty());
        while k < back.len()
            invariant
                k <= back@.len(),
                back@ == rev,
                kept@ == kept_cards(back@.subrange(0, k as int), chosen@),
                taken@ == taken_cards(back@.subrange(0, k as int), chosen@),
                forall|r: Rank, su: Suit| #[trigger] count_card(back@.subrange(0, k as int), r, su)
                    == count_card(kept@, r, su) + count_card(taken@, r, su),
            decreases back@.len() - k,
        {
            let c = back[k];
            let ghost pre = back@.subrange(0, k as int);
            assert(back@.subrange(0, k + 1) =~= pre.push(c));
            assert(back@.subrange(0, k + 1).drop_last() =~= pre);
            proof {
                lemma_count_push(pre, c);
                lemma_count_push(kept@, c);
                lemma_count_push(taken@, c);
            }
            if holds(chosen, &c) {
                taken.push(c);
            } else {
                kept.push(c);
            }
            k = k + 1;
        }
        assert(back@.subrange(0, back@.len() as int) =~= back@);
        let avail = self.deck.size();
        if avail < chosen.len() && chosen.len() - avail > taken.len() {
            proof {
                lemma_kept_taken_len(rev, chosen@);
            }
            return Err("There are no cards remaining in the deck, so no card can be dealt".to_string());
        }
        proof {
            lemma_kept_taken_len(rev, chosen@);
        }
        // the whole hand leaves the player
        let _ = self.players[i].return_cards();
        let ghost p_empty = PlayerView { cards: Seq::empty(), ..p0 };
        proof {
            assert(self@.players =~= t0.players.update(i as int, p_empty));
            lemma_hand_count_update(t0.players, i as int, p_empty);
            lemma_count_reverse(p0.cards);
            assert forall|r: Rank, su: Suit| #[trigger] count_card(p0.cards, r, su)
                == count_card(kept@, r, su) + count_card(taken@, r, su) by {
                assert(count_card(rev, r, su) == count_card(p0.cards, r, su));
                assert(count_card(back@.subrange(0, back@.len() as int), r, su)
                    == count_card(kept@, r, su) + count_card(taken@, r, su));
            }
        }
        // the taken cards go back to the deck, last first
        let mut m: usize = taken.len();
        while m > 0
            invariant
                m <= taken@.len(),
                i < t0.players.len(),
                self@ == (TableView { players: t0.players.update(i as int, p_empty), deck: self@.deck, ..t0 }),
                forall|r: Rank, su: Suit| #[trigger] count_card(self@.deck, r, su)
                    == count_card(t0.deck, r, su) + count_card(taken@.subrange(m as int, taken@.len() as int), r, su),
                self@.deck.len() == t0.deck.len() + (taken@.len() - m),
                forall|r: Rank, su: Suit| #[trigger] table_count(t0, r, su) == 1,
                forall|r: Rank, su: Suit| #[trigger] hand_count(t0.players.update(i as int, p_empty), r, su)
                    + count_card(p0.cards, r, su) == hand_count(t0.players, r, su),
                forall|r: Rank, su: Suit| #[trigger] count_card(p0.cards, r, su)
                    == count_card(kept@, r, su) + count_card(taken@, r, su),
            decreases m,
        {
            m = m - 1;
            let c = taken[m];
            proof {
                let lo = taken@.subrange(0, m as int);
                let hi = taken@.subrange(m + 1, taken@.len() as int);
                assert(taken@ =~= lo + (seq![c] + hi));
                lemma_count_concat(lo, seq![c] + hi);
                lemma_count_concat(seq![c], hi);
                assert(seq![c] =~= Seq::<Card>::empty().push(c));
                lemma_count_push(Seq::<Card>::empty(), c);
                let r = c@.rank;
                let su = c@.suit;
                assert(table_count(t0, r, su) == 1);
                assert(count_card(self@.deck, r, su) == count_card(t0.deck, r, su) + count_card(hi, r, su));
                assert(hand_count(t0.players.update(i as int, p_empty), r, su) + count_card(p0.cards, r, su)
                    == hand_count(t0.players, r, su));
                assert(count_card(p0.cards, r, su) == count_card(kept@, r, su) + count_card(taken@, r, su));
                assert(count_card(taken@, r, su) == count_card(lo, r, su) + count_card(seq![c] + hi, r, su));
                assert(count_card(seq![c] + hi, r, su) == count_card(seq![c], r, su) + count_card(hi, r, su));
                lemma_holds_count(self@.deck, c@);
                assert(taken@.subrange(m as int, taken@.len() as int) =~= seq![c] + hi);
            }
            let ghost d0 = self@.deck;
            self.deck.return_card(c);
            proof {
                lemma_count_push(d0, c);
                lemma_count_concat(seq![c], taken@.subrange(m + 1, taken@.len() as int));
            }
        }
        assert(taken@.subrange(0, taken@.len() as int) =~= taken@);
        proof {
            assert forall|r: Rank, su: Suit| #[trigger] count_card(self@.deck, r, su) + count_card(kept@, r, su)
                + hand_count(t0.players.update(i as int, p_empty), r, su) + count_card(t0.community, r, su) == 1 by {
                assert(table_count(t0, r, su) == 1);
                assert(count_card(self@.deck, r, su)
                    == count_card(t0.deck, r, su) + count_card(taken@.subrange(0, taken@.len() as int), r, su));
                assert(hand_count(t0.players.update(i as int, p_empty), r, su) + count_card(p0.cards, r, su)
                    == hand_count(t0.players, r, su));
                assert(count_card(p0.cards, r, su) == count_card(kept@, r, su) + count_card(taken@, r, su));
            }
        }
        // deal the replacements after the cards kept
        let ghost n_kept = kept@.len();
        let mut dealt: usize = 0;
        while dealt < chosen.len()
            invariant
                dealt <= chosen@.len(),
                i < t0.players.len(),
                n_kept == kept_cards(rev, chosen@).len(),
                kept@.len() == n_kept + dealt,
                kept@.subrange(0, n_kept as int) == kept_cards(rev, chosen@),
                forall|k2: int| n_kept <= k2 < kept@.len() ==> !(#[trigger] kept@[k2])@.face_up,
                self@.deck.len() + dealt >= chosen@.len(),
                self@ == (TableView { players: t0.players.update(i as int, p_empty), deck: self@.deck, ..t0 }),
                forall|r: Rank, su: Suit| #[trigger] count_card(self@.deck, r, su) + count_card(kept@, r, su)
                    + hand_count(t0.players.update(i as int, p_empty), r, su) + count_card(t0.community, r, su) == 1,
            decreases chosen@.len() - dealt,
        {
            let ghost d0 = self@.deck;
            let ghost k0 = kept@;
            let mut c = match self.deck.deal() {
                Ok(c) => c,
                Err(e) => {
                    return Err(e);
                },
            };
            let ghost c0 = c;
            c.set_face_up(false);
            kept.push(c);
            proof {
                lemma_count_dealt(d0, c0, self@.deck);
                lemma_count_push(k0, c);
                assert(kept@.subrange(0, n_kept as int) =~= k0.subrange(0, n_kept as int));
                assert forall|r: Rank, su: Suit| #[trigger] count_card(self@.deck, r, su) + count_card(kept@, r, su)
                    + hand_count(t0.players.update(i as int, p_empty), r, su) + count_card(t0.community, r, su) == 1 by {
                    assert(count_card(d0, r, su) + count_card(k0, r, su)
                        + hand_count(t0.players.update(i as int, p_empty), r, su) + count_card(t0.community, r, su) == 1);
                    assert(is_card(c0, r, su) == is_card(c, r, su));
                }
            }
            dealt = dealt + 1;
        }
        // the player takes their new hand
        let mut q: usize = 0;
        assert(kept@.subrange(0, 0) =~= Seq::<Card>::empty());
        assert(PlayerView { cards: kept@.subrange(0, 0), ..p0 } == p_empty);
        while q < kept.len()
            invariant
                q <= kept@.len(),
                i < t0.players.len(),
                self.players@.len() == t0.players.len(),
                forall|r: Rank, su: Suit| #[trigger] count_card(self@.deck, r, su) + count_card(kept@, r, su)
                    + hand_count(t0.players.update(i as int, p_empty), r, su) + count_card(t0.community, r, su) == 1,
                self@ == (TableView {
                    players: t0.players.update(i as int, PlayerView { cards: kept@.subrange(0, q as int), ..p0 }),
                    deck: self@.deck,
                    ..t0
                }),
            decreases kept@.len() - q,
        {
            let ghost before = self@.players;
            let c = kept[q];
            self.players[i].obtain_card(c);
            assert(self@.players =~= before.update(i as int, PlayerView {
                cards: before[i as int].cards.push(c),
                ..before[i as int]
            }));
            assert(kept@.subrange(0, q + 1) =~= kept@.subrange(0, q as int).push(c));
            q = q + 1;
            assert(self@.players =~= t0.players.update(i as int, PlayerView { cards: kept@.subrange(0, q as int), ..p0 }));
        }
        proof {
            assert(kept@.subrange(0, kept@.len() as int) =~= kept@);
            let p1 = PlayerView { cards: kept@, ..p0 };
            lemma_hand_count_update(t0.players, i as int, p1);
            assert(t0.players.update(i as int, p1) =~= t0.players.update(i as int, p_empty).update(i as int, p1));
            lemma_hand_count_update(t0.players.update(i as int, p_empty), i as int, p1);
            assert(player_ids(self@.players) =~= player_ids(t0.players));
            assert forall|r: Rank, su: Suit| #[trigger] table_count(self@, r, su) == 1 by {
                assert(count_card(p_empty.cards, r, su) == 0);
                assert(count_card(self@.deck, r, su) + count_card(kept@, r, su)
                    + hand_count(t0.players.update(i as int, p_empty), r, su) + count_card(t0.community, r, su) == 1);
                assert(hand_count(t0.players.update(i as int, p_empty).update(i as int, p1), r, su) + count_card(
                    p_empty.cards,
                    r,
                    su,
                ) == hand_count(t0.players.update(i as int, p_empty), r, su) + count_card(p1.cards, r, su));
            }
        }
        Ok(())
    }

    /// The player to act takes a draw turn: they may replace cards of their choice or check.
    /// A replacement is recorded with the number of cards replaced, in phase 2. Returns the
    /// action and the cards chosen for replacement. The answers got are logged. When the
    /// answer is missing or not offered, or the deck cannot supply the replacements, nothing
    /// else is played and an error is returned.
    pub fn take_draw_turn(&mut self) -> (r: Result<(Action, Vec<Card>), &'static str>)
        requires
            old(self).wf(),
            old(self)@.current_player_index < old(self)@.players.len(),
        ensures
            final(self).wf(),
            draw_asked(old(self)@, final(self)@.answers),
            r is Err ==> final(self)@ == answered(old(self)@, final(self)@.answers),
            r matches Err(e) ==> draw_answered(final(self)@.answers) == Err::<Action, &'static str>(e) || (
            draw_answered(final(self)@.answers) is Ok && e == "There are no cards remaining in the deck, so no card can be dealt"
                && draw_deck_short(old(self)@, draw_chosen(final(self)@.answers))),
            r is Ok ==> draw_turn_taken(old(self)@, final(self)@),
            final(self)@.current_player_index == old(self)@.current_player_index,
            final(self)@.players.len() == old(self)@.players.len(),
            r matches Ok((a, chosen)) ==> draw_answered(final(self)@.answers) == Ok::<Action, &'static str>(a)
                && chosen@ == draw_chosen(final(self)@.answers),
    {
        let ghost t0 = self@;
        let i = self.current_player_index;
        let options = vec![ActionOption::Replace, ActionOption::Check];
        let chosen = self.ask_action(options, i);
        let to_replace: Option<Vec<Card>> = match chosen {
            Some(ActionOption::Replace) => self.ask_cards(i),
            _ => None,
        };
        let ghost t1 = self@;
        let n_chosen: Option<usize> = match &to_replace {
            Some(v) => Some(v.len()),
            None => None,
        };
        let decided = draw_action(chosen, n_chosen);
        let to_replace: Vec<Card> = match to_replace {
            Some(v) => v,
            None => Vec::new(),
        };
        proof {
            reveal(draw_asked);
            let log = t1.answers;
            assert(log.actions.last() == chosen);
            assert(log.actions.drop_last() =~= t0.answers.actions);
            if chosen == Some(ActionOption::Replace) {
                assert(log.replacements.drop_last() =~= t0.answers.replacements);
            }
            assert(draw_asked(t0, log));
            assert(draw_answered(log) == decided);
            assert(to_replace@ == draw_chosen(log));
            assert(t1 == answered(t0, log));
        }
        let action = match decided {
            Ok(a) => a,
            Err(e) => {
                return Err(e);
            },
        };
        if to_replace.len() > 0 {
            match self.replace_cards(i, &to_replace) {
                Ok(()) => {},
                Err(_) => {
                    return Err("There are no cards remaining in the deck, so no card can be dealt");
                },
            }
        }
        let ghost mid = self@;
        proof {
            lemma_seated_keys(mid);
            lemma_index_of(mid.pot.stakes, i as int);
        }
        self.record_turn(i, action, 2, 0);
        proof {
            reveal(draw_turn_taken);
            assert(self@.players =~= mid.players);
            if to_replace@.len() > 0 {
                assert(mid == (TableView { pot: t1.pot, ..self@ }));
            }
            assert(draw_turn_taken(t0, self@));
        }
        Ok((action, to_replace))
    }

    /// The draw phase: going round the table from the player whose turn it is, each player
    /// who has not folded takes a draw turn. It ends after one turn round the table, or when
    /// all players but one have folded.
    pub fn play_draw_phase(&mut self) -> (r: Result<(), &'static str>)
        requires
            old(self).wf(),
            old(self)@.players.len() > 0,
            old(self)@.current_player_index < old(self)@.players.len(),
            total(old(self)@.pot.stakes) <= usize::MAX,
        ensures
            final(self).wf(),
            draw_progress(old(self)@, final(self)@),
            final(self)@.current_player_index < final(self)@.players.len(),
            draw_phase_played(old(self)@, final(self)@, r),
    {
        let ghost t0 = self@;
        let n = self.players.len();
        let start_player_index = self.current_player_index;
        let ghost mut steps: nat = n as nat;
        let ghost mut tr: Seq<TableView> = seq![t0];
        assert(self@.pot.history.subrange(0, t0.pot.history.len() as int) =~= t0.pot.history);
        loop
            invariant_except_break
                1 <= steps <= n,
                self@.current_player_index + steps == start_player_index
                    || self@.current_player_index + steps == start_player_index + n,
                tr.len() > 1 ==> self@.current_player_index != start_player_index,
            invariant
                self.wf(),
                t0 == old(self)@,
                self@.players.len() == n,
                n > 0,
                start_player_index < n,
                total(t0.pot.stakes) <= usize::MAX,
                draw_progress(t0, self@),
                self@.current_player_index < n,
                start_player_index == t0.current_player_index,
                draw_trace(tr, t0),
                tr.last() == self@,
            ensures
                draw_over(self@) || (tr.len() > 1 && self@.current_player_index == start_player_index),
            decreases steps,
        {
            let ghost t1 = self@;
            proof {
                lemma_seated_keys(t1);
                lemma_first_ids_bounded(t1.pot);
                lemma_count_folded_le(first_ids(t1.pot.history), t1.pot.history);
            }
            if self.pot.number_of_players_folded() + 1 == n as u32 {
                break;
            }
            let ghost mid: TableView = t1;
            let i = self.current_player_index;
            let id = self.players[i].account_id();
            if !self.pot.player_has_folded(&id) {
                proof {
                    lemma_first_ids_distinct(t1.pot.history);
                    lemma_stake_sum_le_total(first_ids(t1.pot.history), t1.pot.stakes);
                }
                self.input.display_pot(self.pot.get_total_stake(), &self.players);
                self.input.display_player_balances(&self.players);
                self.input.display_current_player(&self.players[i]);
                self.input.display_player_cards_to_player(&self.players[i]);
                match self.take_draw_turn() {
                    Ok(a) => {
                        proof {
                            let t2 = self@;
                            mid = t2;
                            assert(draw_turn_taken(t1, t2));
                            assert(draw_progress(t0, t2)) by {
                                reveal(draw_turn_taken);
                                assert(t2.pot.history.subrange(0, t0.pot.history.len() as int)
                                    =~= t1.pot.history.subrange(0, t0.pot.history.len() as int));
                                assert forall|k: int| t0.pot.history.len() <= k < t2.pot.history.len() implies (#[trigger] t2.pot.history[k]).2
                                    == 2 by {
                                    if k < t1.pot.history.len() {
                                        assert(t2.pot.history[k] == t1.pot.history[k]);
                                    }
                                }
                                assert forall|k: int| 0 <= k < t0.players.len() implies (#[trigger] t2.players[k]).account_id
                                    == t0.players[k].account_id && t2.players[k].name == t0.players[k].name
                                    && t2.players[k].balance == t0.players[k].balance by {
                                    assert(t1.players[k].account_id == t0.players[k].account_id);
                                }
                            }
                        }
                    },
                    Err(e) => {
                        proof {
                            let f = self@;
                            assert(tr.last() == t1);
                            lemma_draw_phase_failed(tr, t0, f, e);
                        }
                        return Err(e);
                    },
                }
            }
            self.increment_player_index();
            proof {
                steps = (steps - 1) as nat;
                let prev = tr;
                assert(self@ == advanced(mid));
                assert(draw_step(prev.last(), self@));
                tr = prev.push(self@);
                assert forall|k: int| 0 <= k < tr.len() - 1 implies draw_step(#[trigger] tr[k], tr[k + 1]) by {
                    if k < prev.len() - 1 {
                        assert(tr[k] == prev[k] && tr[k + 1] == prev[k + 1]);
                    } else {
                        assert(tr[k] == prev.last());
                    }
                }
                assert forall|k: int| 1 <= k < tr.len() - 1 implies (#[trigger] tr[k]).current_player_index != t0.current_player_index by {
                    assert(tr[k] == prev[k]);
                }
            }
            if self.current_player_index == start_player_index {
                break;
            }
        }
        proof {
            lemma_draw_phase_ended(tr, t0, self@);
        }
        Ok(())
    }

    /// Takes back the cards of the player in seat `i` into the deck.
    fn return_cards_of(&mut self, i: usize)
        requires
            old(self).wf(),
            i < old(self)@.players.len(),
        ensures
            final(self).wf(),
            final(self)@ == (TableView {
                players: old(self)@.players.update(i as int, PlayerView { cards: Seq::empty(), ..old(self)@.players[i as int] }),
                deck: final(self)@.deck,
                ..old(self)@
            }),
            forall|r: Rank, su: Suit| #[trigger] count_card(final(self)@.deck, r, su)
                == count_card(old(self)@.deck, r, su) + count_card(old(self)@.players[i as int].cards, r, su),
    {
        let ghost t0 = self@;
        let cards = self.players[i].return_cards();
        let ghost p0 = t0.players[i as int];
        let ghost p1 = PlayerView { cards: Seq::empty(), ..p0 };
        proof {
            assert(self@.players =~= t0.players.update(i as int, p1));
            lemma_hand_count_update(t0.players, i as int, p1);
            lemma_count_reverse(p0.cards);
        }
        let mut j: usize = 0;
        assert(cards@.subrange(0, 0) =~= Seq::<Card>::empty());
        while j < cards.len()
            invariant
                j <= cards@.len(),
                i < t0.players.len(),
                p0 == t0.players[i as int],
                cards@ == p0.cards.reverse(),
                self@ == (TableView { players: t0.players.update(i as int, p1), deck: self@.deck, ..t0 }),
                forall|r: Rank, su: Suit| #[trigger] count_card(self@.deck, r, su)
                    == count_card(t0.deck, r, su) + count_card(cards@.subrange(0, j as int), r, su),
                forall|r: Rank, su: Suit| #[trigger] count_card(cards@, r, su) == count_card(p0.cards, r, su),
                forall|r: Rank, su: Suit| #[trigger] table_count(t0, r, su) == 1,
                forall|r: Rank, su: Suit| #[trigger] hand_count(t0.players.update(i as int, p1), r, su)
                    + count_card(p0.cards, r, su) == hand_count(t0.players, r, su),
            decreases cards@.len() - j,
        {
            let c = cards[j];
            proof {
                let pre = cards@.subrange(0, j as int);
                let rest = cards@.subrange(j as int, cards@.len() as int);
                assert(cards@ =~= pre + rest);
                crate::deck::lemma_count_concat(pre, rest);
                assert(rest =~= seq![c] + rest.subrange(1, rest.len() as int));
                crate::deck::lemma_count_concat(seq![c], rest.subrange(1, rest.len() as int));
                assert(seq![c] =~= Seq::<Card>::empty().push(c));
                lemma_count_push(Seq::<Card>::empty(), c);
                lemma_holds_count(self@.deck, c@);
                let r = c@.rank;
                let su = c@.suit;
                assert(table_count(t0, r, su) == 1);
                assert(count_card(seq![c], r, su) == 1);
                assert(count_card(self@.deck, r, su) == count_card(t0.deck, r, su) + count_card(pre, r, su));
                assert(count_card(cards@, r, su) == count_card(p0.cards, r, su));
                assert(hand_count(t0.players.update(i as int, p1), r, su) + count_card(p0.cards, r, su)
                    == hand_count(t0.players, r, su));
                assert(count_card(cards@, r, su) == count_card(pre, r, su) + count_card(rest, r, su));
                assert(count_card(rest, r, su) == count_card(seq![c], r, su) + count_card(rest.subrange(1, rest.len() as int), r, su));
                assert(count_card(self@.deck, r, su) == 0);
            }
            let ghost d0 = self@.deck;
            self.deck.return_card(c);
            proof {
                lemma_count_push(d0, c);
                assert(cards@.subrange(0, j + 1) =~= cards@.subrange(0, j as int).push(c));
                lemma_count_push(cards@.subrange(0, j as int), c);
            }
            j = j + 1;
        }
        proof {
            assert(cards@.subrange(0, cards@.len() as int) =~= cards@);
            assert(player_ids(self@.players) =~= player_ids(t0.players));
            assert forall|r: Rank, su: Suit| #[trigger] table_count(self@, r, su) == 1 by {
                assert(table_count(t0, r, su) == 1);
            }
        }
    }

    /// Takes back every player's cards into the deck.
    pub fn return_player_cards(&mut self)
        requires
            old(self).wf(),
        ensures
            final(self).wf(),
            final(self)@ == (TableView { players: final(self)@.players, deck: final(self)@.deck, ..old(self)@ }),
            final(self)@.players.len() == old(self)@.players.len(),
            forall|i: int| 0 <= i < old(self)@.players.len() ==> #[trigger] final(self)@.players[i] == (PlayerView {
                cards: Seq::empty(),
                ..old(self)@.players[i]
            }),
            forall|r: Rank, su: Suit| #[trigger] count_card(final(self)@.deck, r, su)
                == count_card(old(self)@.deck, r, su) + hand_count(old(self)@.players, r, su),
    {
        let ghost t0 = self@;
        let n = self.players.len();
        let mut i: usize = 0;
        while i < n
            invariant
                self.wf(),
                i <= n,
                n == t0.players.len(),
                self@ == (TableView { players: self@.players, deck: self@.deck, ..t0 }),
                self@.players.len() == n,
                forall|k: int| 0 <= k < i ==> #[trigger] self@.players[k] == (PlayerView { cards: Seq::empty(), ..t0.players[k] }),
                forall|k: int| i <= k < n ==> #[trigger] self@.players[k] == t0.players[k],
                forall|r: Rank, su: Suit| #[trigger] count_card(self@.deck, r, su) + hand_count(self@.players, r, su)
                    == count_card(t0.deck, r, su) + hand_count(t0.players, r, su),
            decreases n - i,
        {
            let ghost t1 = self@;
            self.return_cards_of(i);
            proof {
                lemma_hand_count_update(t1.players, i as int, PlayerView { cards: Seq::empty(), ..t1.players[i as int] });
                assert forall|r: Rank, su: Suit| #[trigger] count_card(self@.deck, r, su) + hand_count(self@.players, r, su)
                    == count_card(t0.deck, r, su) + hand_count(t0.players, r, su) by {
                    assert(count_card(t1.deck, r, su) + hand_count(t1.players, r, su)
                        == count_card(t0.deck, r, su) + hand_count(t0.players, r, su));
                    assert(count_card(Seq::<Card>::empty(), r, su) == 0);
                }
            }
            i = i + 1;
        }
        proof {
            assert forall|k: int| 0 <= k < self@.players.len() implies (#[trigger] self@.players[k]).cards.len() == 0 by {
                assert(self@.players[k] == (PlayerView { cards: Seq::empty(), ..t0.players[k] }));
            }
            lemma_hand_count_empty(self@.players);
        }
    }

    /// Takes back the community cards into the deck, last dealt first.
    pub fn return_community_cards(&mut self)
        requires
            old(self).wf(),
        ensures
            final(self).wf(),
            final(self)@ == (TableView { community: Seq::empty(), deck: final(self)@.deck, ..old(self)@ }),
            forall|r: Rank, su: Suit| #[trigger] count_card(final(self)@.deck, r, su)
                == count_card(old(self)@.deck, r, su) + count_card(old(self)@.community, r, su),
    {
        let ghost t0 = self@;
        while self.community_cards.len() > 0
            invariant
                self.wf(),
                self@ == (TableView { community: self@.community, deck: self@.deck, ..t0 }),
                forall|r: Rank, su: Suit| #[trigger] count_card(self@.deck, r, su) + count_card(self@.community, r, su)
                    == count_card(t0.deck, r, su) + count_card(t0.community, r, su),
            decreases self@.community.len(),
        {
            let ghost t1 = self@;
            let card = self.community_cards.pop().unwrap();
            proof {
                assert(t1.community =~= self@.community.push(card));
                lemma_count_push(self@.community, card);
                lemma_holds_count(self@.deck, card@);
                assert(table_count(t1, card@.rank, card@.suit) == 1);
            }
            let ghost d0 = self@.deck;
            self.deck.return_card(card);
            proof {
                lemma_count_push(d0, card);
                assert forall|r: Rank, su: Suit| #[trigger] table_count(self@, r, su) == 1 by {
                    assert(table_count(t1, r, su) == 1);
                }
            }
        }
        assert(self@.community =~= Seq::<Card>::empty());
    }

    /// Turns face up the cards of every player who has not folded; each such hand is taken
    /// back and given again, last card first.
    pub fn flip_non_folded_players_cards_up(&mut self)
        requires
            old(self).wf(),
        ensures
            final(self).wf(),
            final(self)@ == (TableView {
                players: flipped_players(old(self)@.players, old(self)@.pot.history),
                ..old(self)@
            }),
    {
        let ghost t0 = self@;
        proof {
            lemma_face_up_card();
        }
        let n = self.players.len();
        let mut i: usize = 0;
        while i < n
            invariant
                self.wf(),
                i <= n,
                n == t0.players.len(),
                self@ == (TableView { players: self@.players, ..t0 }),
                self@.players.len() == n,
                forall|k: int| i <= k < n ==> #[trigger] self@.players[k] == t0.players[k],
                forall|k: int| 0 <= k < i ==> {
                    let p0 = t0.players[k];
                    let p1 = #[trigger] self@.players[k];
                    &&& p1.account_id == p0.account_id && p1.name == p0.name && p1.balance == p0.balance
                    &&& folded_in(t0.pot.history, p0.account_id) ==> p1 == p0
                    &&& !folded_in(t0.pot.history, p0.account_id) ==> {
                        &&& p1.cards.len() == p0.cards.len()
                        &&& forall|j: int| 0 <= j < p0.cards.len() ==> (#[trigger] p1.cards[j])@ == (CardView {
                            face_up: true,
                            ..p0.cards.reverse()[j]@
                        })
                    }
                },
            decreases n - i,
        {
            let id = self.players[i].account_id();
            if !self.pot.player_has_folded(&id) {
                let ghost t1 = self@;
                let ghost p0 = t0.players[i as int];
                assert(t1.players[i as int] == p0);
                let cards = self.players[i].return_cards();
                assert(self@.players =~= t1.players.update(i as int, PlayerView { cards: Seq::empty(), ..p0 }));
                let mut j: usize = 0;
                while j < cards.len()
                    invariant
                        j <= cards@.len(),
                        cards@ == p0.cards.reverse(),
                        i < n,
                        t1.players.len() == n,
                        self@ == (TableView { players: self@.players, ..t1 }),
                        self@.players.len() == n,
                        forall|k: int| 0 <= k < n && k != i ==> #[trigger] self@.players[k] == t1.players[k],
                        self@.players[i as int] == (PlayerView { cards: self@.players[i as int].cards, ..p0 }),
                        self@.players[i as int].cards.len() == j,
                        forall|k: int| 0 <= k < j ==> (#[trigger] self@.players[i as int].cards[k])@ == (CardView {
                            face_up: true,
                            ..cards@[k]@
                        }),
                    decreases cards@.len() - j,
                {
                    let mut c = cards[j];
                    c.set_face_up(true);
                    let ghost before = self@.players;
                    self.players[i].obtain_card(c);
                    assert(self@.players =~= before.update(i as int, PlayerView {
                        cards: before[i as int].cards.push(c),
                        ..before[i as int]
                    }));
                    j = j + 1;
                }
                proof {
                    lemma_face_up_card();
                    let p1 = self@.players[i as int];
                    assert(p1.cards =~= flipped_hand(p0.cards)) by {
                        assert forall|k: int| 0 <= k < p1.cards.len() implies p1.cards[k] == flipped_hand(p0.cards)[k] by {
                            lemma_card_view_injective(p1.cards[k], flipped_hand(p0.cards)[k]);
                        }
                    }
                    assert(self@.players =~= t1.players.update(i as int, p1));
                    lemma_count_reverse(p0.cards);
                    lemma_count_same_cards(p1.cards, p0.cards.reverse());
                    lemma_hand_count_update(t1.players, i as int, p1);
                    assert(player_ids(self@.players) =~= player_ids(t1.players));
                    assert forall|r: Rank, su: Suit| #[trigger] table_count(self@, r, su) == 1 by {
                        assert(table_count(t1, r, su) == 1);
                    }
                }
            }
            i = i + 1;
        }
        assert(self@.players =~= flipped_players(t0.players, t0.pot.history)) by {
            lemma_face_up_card();
            assert forall|k: int| 0 <= k < n implies #[trigger] self@.players[k] == flipped_players(t0.players, t0.pot.history)[k] by {
                let p0 = t0.players[k];
                let p1 = self@.players[k];
                if !folded_in(t0.pot.history, p0.account_id) {
                    assert(p1.cards =~= flipped_hand(p0.cards)) by {
                        assert forall|q: int| 0 <= q < p1.cards.len() implies p1.cards[q] == flipped_hand(p0.cards)[q] by {
                            lemma_card_view_injective(p1.cards[q], flipped_hand(p0.cards)[q]);
                        }
                    }
                }
            }
        }
    }

    /// The showdown. The pot is shown, the cards of the players who have not folded are
    /// turned face up and shown to each of them in turn, and the pot is divided along the
    /// winning order of `showdown_order`: the players who have not folded grouped by the
    /// strength of the hand their cards make together with the community cards, strongest
    /// first, then those who folded. Each player is paid
    /// their winnings, and the winners are announced. When nobody is left to show a hand, or
    /// a hand cannot be ranked, the pot is not divided and an error is returned.
    pub fn showdown(&mut self) -> (r: Result<(), &'static str>)
        requires
            old(self).wf(),
            old(self)@.players.len() > 0,
            old(self)@.current_player_index < old(self)@.players.len(),
            money(old(self)@) <= usize::MAX,
            old(self)@.pot.history.len() > 0 ==> old(self)@.pot.history.last().2 < usize::MAX,
        ensures
            final(self).wf(),
            ({
                let t = old(self)@;
                let h = t.pot.history;
                let tf = TableView { players: flipped_players(t.players, h), ..t };
                let w = spec_divide(t.pot, showdown_order(tf.players, h, tf.community));
                &&& r is Ok <==> showdown_ready(tf.players, h, tf.community)
                &&& r is Ok ==> balances(final(self)@.players) <= money(t)
                &&& r is Err ==> final(self)@ == tf
                &&& r matches Err(e) ==> super::round::showdown_error(e)
                &&& r is Ok ==> final(self)@ == (TableView {
                    players: paid_players(tf.players, w),
                    pot: PotView { history: h + settlement_turns(t.pot.stakes, w, next_phase(h)), stakes: t.pot.stakes },
                    ..tf
                })
            }),
    {
        let ghost t0 = self@;
        let ghost h = t0.pot.history;
        let n = self.players.len();
        let start_player_index = self.current_player_index;
        proof {
            lemma_seated_keys(t0);
            lemma_first_ids_distinct(h);
            lemma_stake_sum_le_total(first_ids(h), t0.pot.stakes);
        }
        self.input.display_pot(self.pot.get_total_stake(), &self.players);
        self.flip_non_folded_players_cards_up();
        let ghost tf = self@;
        proof {
            lemma_balances_same(t0.players, tf.players);
        }
        // show each player who has not folded the others' up cards
        let mut k = start_player_index;
        let ghost mut steps: nat = n as nat;
        loop
            invariant_except_break
                1 <= steps <= n,
                k + steps == start_player_index || k + steps == start_player_index + n,
            invariant
                self@ == tf,
                self.wf(),
                t0 == old(self)@,
                h == t0.pot.history,
                tf == (TableView { players: flipped_players(t0.players, h), ..t0 }),
                n == tf.players.len(),
                k < n,
                start_player_index < n,
            decreases steps,
        {
            let id = self.players[k].account_id();
            if !self.pot.player_has_folded(&id) {
                let mut others: Vec<Player> = Vec::new();
                let mut j: usize = 0;
                while j < n
                    invariant
                        self@ == tf,
                        n == tf.players.len(),
                        j <= n,
                        k < n,
                    decreases n - j,
                {
                    if j != k {
                        others.push(self.players[j].clone());
                    }
                    j = j + 1;
                }
                self.input.display_other_player_up_cards_to_player(&others, &self.players[k]);
            }
            k = if k + 1 == n { 0 } else { k + 1 };
            proof {
                steps = (steps - 1) as nat;
            }
            if k == start_player_index {
                break;
            }
        }
        // rank the hands of the players who have not folded
        let mut entries: Vec<(u128, HandRank)> = Vec::new();
        let mut folded: Vec<u128> = Vec::new();
        let mut i: usize = 0;
        assert(tf.players.subrange(0, 0) =~= Seq::<PlayerView>::empty());
        while i < n
            invariant
                self@ == tf,
                self.wf(),
                t0 == old(self)@,
                h == t0.pot.history,
                tf == (TableView { players: flipped_players(t0.players, h), ..t0 }),
                n == tf.players.len(),
                i <= n,
                entries_view(entries@) == showdown_entries(tf.players.subrange(0, i as int), h, tf.community),
                folded@ == folded_ids(tf.players.subrange(0, i as int), h),
                h == tf.pot.history,
                forall|j: int| 0 <= j < i && !folded_in(h, (#[trigger] tf.players[j]).account_id) ==> rank_hand_defined(tf.players[j].cards + tf.community),
                entries@.len() > 0 <==> exists|j: int| 0 <= j < i && !folded_in(h, (#[trigger] tf.players[j]).account_id),
            decreases n - i,
        {
            let id = self.players[i].account_id();
            let ghost pre = tf.players.subrange(0, i as int);
            assert(tf.players.subrange(0, i + 1).drop_last() =~= pre);
            assert(tf.players.subrange(0, i + 1).last() == tf.players[i as int]);
            if self.pot.player_has_folded(&id) {
                folded.push(id);
            } else {
                let cards = hand_with(self.players[i].cards(), &self.community_cards);
                if !Hand::is_rankable(cards.as_slice()) {
                    assert(!folded_in(h, tf.players[i as int].account_id) && !rank_hand_defined(tf.players[i as int].cards + tf.community));
                    assert(!showdown_ready(tf.players, h, tf.community));
                    return Err("A hand cannot be ranked");
                }
                let rank = Hand::rank_hand(cards.as_slice());
                let ghost before = entries@;
                entries.push((id, rank));
                assert(entries_view(entries@) =~= entries_view(before).push((id, rank@)));
            }
            i = i + 1;
        }
        assert(tf.players.subrange(0, n as int) =~= tf.players);
        if entries.len() == 0 {
            assert(!showdown_ready(tf.players, h, tf.community));
            return Err("No player is left to show a hand");
        }
        assert(showdown_ready(tf.players, h, tf.community));
        let mut groups = group_by_strength(&entries);
        let ghost sg = groups@.map_values(|g: Vec<u128>| g@);
        groups.push(folded);
        let ghost order = showdown_order(tf.players, h, tf.community);
        assert(order_view(groups@) =~= order);
        proof {
            lemma_showdown_ids(tf.players, h, tf.community);
            lemma_strength_groups_ids(showdown_entries(tf.players, h, tf.community));
            assert(player_ids(tf.players) == player_ids(t0.players)) by {
                assert(player_ids(tf.players) =~= player_ids(t0.players));
            }
            assert forall|a: int, b: int|
                0 <= a < groups@.len() && 0 <= b < groups@[a]@.len() && !folded_in(h, #[trigger] groups@[a]@[b])
                implies has_player(tf.pot.stakes, groups@[a]@[b]) by {
                let x = groups@[a]@[b];
                assert(order[a][b] == x);
                if a < order.len() - 1 {
                    let g = strength_groups(showdown_entries(tf.players, h, tf.community));
                    assert(order[a] == g[a]);
                    let kk = choose|kk: int| 0 <= kk < showdown_entries(tf.players, h, tf.community).len()
                        && (#[trigger] showdown_entries(tf.players, h, tf.community)[kk]).0 == #[trigger] g[a][b];
                    assert(player_ids(tf.players).contains(showdown_entries(tf.players, h, tf.community)[kk].0));
                } else {
                    assert(order[a] == folded_ids(tf.players, h));
                    assert(player_ids(tf.players).contains(folded_ids(tf.players, h)[b]));
                }
                let q = choose|q: int| 0 <= q < player_ids(tf.players).len() && player_ids(tf.players)[q] == x;
                assert(tf.pot.stakes[q].0 == x);
            }
            lemma_payout_bounded(tf.pot, order);
        }
        let winnings = self.pot.divide_winnings(groups);
        let ghost w = winnings@;
        let ghost tp = self@;
        proof {
            lemma_stake_sum_le_total(player_ids(tf.players), w);
            lemma_cards_kept_same(tf, tp);
            assert(w == spec_divide(t0.pot, order));
        }
        // pay the winners
        let mut winners: Vec<Player> = Vec::new();
        let mut i: usize = 0;
        assert(player_ids(tf.players).subrange(0, 0) =~= Seq::<u128>::empty());
        while i < n
            invariant
                self.wf(),
                t0 == old(self)@,
                h == t0.pot.history,
                tf == (TableView { players: flipped_players(t0.players, h), ..t0 }),
                w == spec_divide(t0.pot, showdown_order(tf.players, h, tf.community)),
                tp.pot.history == h + settlement_turns(t0.pot.stakes, w, next_phase(h)),
                tp.pot.stakes == t0.pot.stakes,
                i <= n,
                n == tf.players.len(),
                winnings@ == w,
                keys_distinct(w),
                self@ == (TableView { players: self@.players, ..tp }),
                tp == (TableView { pot: tp.pot, ..tf }),
                self@.players.len() == n,
                forall|q: int| 0 <= q < i ==> #[trigger] self@.players[q] == paid_players(tf.players, w)[q],
                forall|q: int| i <= q < n ==> #[trigger] self@.players[q] == tf.players[q],
                balances(self@.players) == balances(tf.players) + stake_sum(player_ids(tf.players).subrange(0, i as int), w),
                balances(tf.players) + stake_sum(player_ids(tf.players), w) <= usize::MAX,
            decreases n - i,
        {
            let id = self.players[i].account_id();
            let ghost ids = player_ids(tf.players);
            assert(self@.players[i as int] == tf.players[i as int]);
            assert(ids[i as int] == tf.players[i as int].account_id);
            assert(ids.subrange(0, i + 1).drop_last() =~= ids.subrange(0, i as int));
            assert(ids.subrange(0, i + 1).last() == id);
            proof {
                lemma_stake_sum_prefix(ids, w, i + 1);
                lemma_balance_le(self@.players, i as int);
            }
            match winnings.get_opt(&id) {
                Some(x) => {
                    if x > 0 {
                        let ghost before = self@;
                        self.players[i].win(x);
                        proof {
                            let p1 = PlayerView { balance: (before.players[i as int].balance + x) as nat, ..before.players[i as int] };
                            assert(self@.players =~= before.players.update(i as int, p1));
                            lemma_balances_update(before.players, i as int, p1);
                            lemma_hand_count_update(before.players, i as int, p1);
                            assert(player_ids(self@.players) =~= player_ids(before.players));
                            assert forall|r: Rank, su: Suit| #[trigger] table_count(self@, r, su) == 1 by {
                                assert(table_count(before, r, su) == 1);
                            }
                        }
                        winners.push(self.players[i].clone());
                    }
                },
                None => {},
            }
            i = i + 1;
            proof {
                assert(self@.players[i - 1] == paid_players(tf.players, w)[i - 1]);
            }
        }
        assert(self@.players =~= paid_players(tf.players, w));
        proof {
            assert(player_ids(tf.players).subrange(0, n as int) =~= player_ids(tf.players));
            lemma_payout_bounded(t0.pot, showdown_order(tf.players, h, tf.community));
            lemma_balances_same(t0.players, tf.players);
        }
        self.input.announce_winner(&winners, &self.players);
        self.input.display_player_balances(&self.players);
        Ok(())
    }

    /// Moves the dealer to the next seat, back to the first after the last.
    pub fn increment_dealer_position(&mut self)
        requires
            old(self)@.dealer_position < usize::MAX,
        ensures
            old(self).wf() ==> final(self).wf(),
            final(self)@ == (TableView {
                dealer_position: if old(self)@.dealer_position + 1 >= old(self)@.players.len() {
                    0
                } else {
                    (old(self)@.dealer_position + 1) as usize
                },
                ..old(self)@
            }),
    {
        self.dealer_position = self.dealer_position + 1;
        if self.dealer_position >= self.players.len() {
            self.dealer_position = 0;
        }
        proof {
            if old(self).wf() {
                lemma_cards_kept_same(old(self)@, self@);
            }
        }
    }

    /// Moves the turn to the next seat, back to the first after the last.
    pub fn increment_player_index(&mut self)
        requires
            old(self)@.current_player_index < usize::MAX,
        ensures
            old(self).wf() ==> final(self).wf(),
            final(self)@ == (TableView {
                current_player_index: if old(self)@.current_player_index + 1 == old(self)@.players.len() {
                    0
                } else {
                    (old(self)@.current_player_index + 1) as usize
                },
                ..old(self)@
            }),
    {
        self.current_player_index = self.current_player_index + 1;
        if self.current_player_index == self.players.len() {
            self.current_player_index = 0;
        }
        proof {
            if old(self).wf() {
                lemma_cards_kept_same(old(self)@, self@);
            }
        }
    }
}

} // verus!
