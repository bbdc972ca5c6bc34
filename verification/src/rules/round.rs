use vstd::prelude::*;

use crate::player::{Player, PlayerView};
use crate::pot::{PotView, zero_stakes};
use super::table::{
    TableView, player_ids, balances, money, after_blinds, bet_progress, draw_progress, lemma_balances_same,
};

verus! {

/// The players given back at the end of a round: the same accounts with the same names, in
/// the same order, holding no cards, and with no more money in all than they brought.
pub open spec fn players_back(given: Seq<PlayerView>, back: Seq<PlayerView>) -> bool {
    &&& back.len() == given.len()
    &&& forall|i: int|
        0 <= i < given.len() ==> (#[trigger] back[i]).account_id == given[i].account_id && back[i].name
            == given[i].name && back[i].cards.len() == 0
    &&& balances(back) <= balances(given)
}

/// The players `ps` can be seated for a round: each has an account of their own, and none
/// holds cards.
pub open spec fn players_ready(ps: Seq<PlayerView>) -> bool {
    &&& player_ids(ps).no_duplicates()
    &&& forall|i: int| 0 <= i < ps.len() ==> (#[trigger] ps[i]).cards.len() == 0
}

/// Why a round cannot start with the players `ps` at table `t`, if it cannot: fewer than 2
/// players, more than `max_players` (the reason then is `too_many`), balances too large to
/// add up, or cards missing from the deck.
pub open spec fn round_refusal(t: TableView, ps: Seq<PlayerView>, max_players: nat, too_many: &'static str) -> Option<&'static str> {
    if ps.len() < 2 {
        Some("Cannot start a game with less than 2 players")
    } else if ps.len() > max_players {
        Some(too_many)
    } else if balances(ps) > usize::MAX {
        Some("The players' balances are too large")
    } else if t.deck.len() != 52 || t.community.len() != 0 || exists|i: int|
        0 <= i < t.players.len() && (#[trigger] t.players[i]).cards.len() > 0 {
        Some("The deck must be complete when a round starts")
    } else {
        None
    }
}

/// The players of `b` have the accounts and names of those of `a`, seat by seat.
pub open spec fn same_accounts(a: Seq<PlayerView>, b: Seq<PlayerView>) -> bool {
    &&& a.len() == b.len()
    &&& forall|i: int| 0 <= i < a.len() ==> (#[trigger] b[i]).account_id == a[i].account_id && b[i].name == a[i].name
}

/// The players given back by a round's result.
pub open spec fn players_given_back(r: Result<Vec<Player>, (&'static str, Vec<Player>)>) -> Seq<PlayerView> {
    match r {
        Ok(ps) => ps@.map_values(|p: Player| p@),
        Err((_, ps)) => ps@.map_values(|p: Player| p@),
    }
}

/// The error of a round's result, if it is one.
pub open spec fn error_of(r: Result<Vec<Player>, (&'static str, Vec<Player>)>) -> Option<&'static str> {
    match r {
        Ok(_) => None,
        Err((e, _)) => Some(e),
    }
}

/// The players `ps` as they leave the table: holding no cards.
pub open spec fn without_cards(ps: Seq<PlayerView>) -> Seq<PlayerView> {
    Seq::new(ps.len(), |i: int| PlayerView { cards: Seq::empty(), ..ps[i] })
}

/// The table `t` when a round starts with the players `given`: they take the seats, the pot
/// has no turns and a zero stake for each of them, the dealer moves to the next seat (back
/// to the first after the last) and the turn goes to the dealer.
pub open spec fn round_start(t: TableView, given: Seq<PlayerView>) -> TableView {
    let d: usize = if t.dealer_position + 1 >= given.len() {
        0
    } else {
        (t.dealer_position + 1) as usize
    };
    TableView {
        players: given,
        pot: PotView { history: Seq::empty(), stakes: zero_stakes(player_ids(given)) },
        dealer_position: d,
        current_player_index: d,
        ..t
    }
}

/// The reasons a blind is refused.
pub open spec fn blind_error(e: &'static str) -> bool {
    e == "A blind must raise the player's stake" || e == "Player does not have enough money remaining to make this bet"
}

/// The reasons a showdown is refused.
pub open spec fn showdown_error(e: &'static str) -> bool {
    e == "A hand cannot be ranked" || e == "No player is left to show a hand"
}

/// `b` is `a` after `n` cards were dealt face down to every player: only the players' cards
/// and the deck change, and each player's cards grow by `n` cards face down.
pub open spec fn dealt_down(a: TableView, b: TableView, n: nat) -> bool {
    &&& b == (TableView { players: b.players, deck: b.deck, ..a })
    &&& b.players.len() == a.players.len()
    &&& forall|k: int| 0 <= k < a.players.len() ==> {
        let p0 = a.players[k];
        let p1 = #[trigger] b.players[k];
        &&& p1 == (PlayerView { cards: p1.cards, ..p0 })
        &&& p1.cards.len() == p0.cards.len() + n
        &&& p1.cards.subrange(0, p0.cards.len() as int) == p0.cards
        &&& forall|j: int| p0.cards.len() <= j < p1.cards.len() ==> !(#[trigger] p1.cards[j])@.face_up
    }
}

/// The showdown at table `t` at the end of a round gives back the players `back` with the
/// error `err`: when every hand left can be ranked, the pot is divided among the best hands
/// and the players are paid; otherwise the showdown is refused and the players leave as
/// they were, their cards shown.
pub open spec fn showdown_stage(t: TableView, back: Seq<PlayerView>, err: Option<&'static str>) -> bool {
    let h = t.pot.history;
    let fp = super::table::flipped_players(t.players, h);
    let w = crate::pot::spec_divide(t.pot, super::table::showdown_order(fp, h, t.community));
    if super::table::showdown_ready(fp, h, t.community) {
        err is None && back == without_cards(super::table::paid_players(fp, w))
    } else {
        (err matches Some(e) && showdown_error(e)) && back == without_cards(fp)
    }
}

/// Players who differ from `a` only in their cards leave the table as `a` would.
pub proof fn lemma_without_cards_same(a: Seq<PlayerView>, b: Seq<PlayerView>)
    requires
        a.len() == b.len(),
        forall|k: int| 0 <= k < a.len() ==> #[trigger] b[k] == (PlayerView { cards: b[k].cards, ..a[k] }),
    ensures
        without_cards(a) == without_cards(b),
{
    assert forall|k: int| 0 <= k < a.len() implies #[trigger] without_cards(a)[k] == without_cards(b)[k] by {
        assert(b[k] == (PlayerView { cards: b[k].cards, ..a[k] }));
    }
    assert(without_cards(a) =~= without_cards(b));
}

/// The showdown at `t` ends the round at the table `e`: when every hand left can be ranked,
/// the pot is divided among the best hands and the players are paid; otherwise the
/// showdown is refused, the hands shown.
pub open spec fn showdown_ends(t: TableView, e: TableView, err: Option<&'static str>) -> bool {
    let h = t.pot.history;
    let fp = super::table::flipped_players(t.players, h);
    let w = crate::pot::spec_divide(t.pot, super::table::showdown_order(fp, h, t.community));
    if super::table::showdown_ready(fp, h, t.community) {
        err is None && e.players == super::table::paid_players(fp, w)
    } else {
        (err matches Some(x) && showdown_error(x)) && e.players == fp
    }
}

/// The error of a step's result, if it is one.
pub open spec fn step_error(r: Result<(), &'static str>) -> Option<&'static str> {
    match r {
        Ok(()) => None,
        Err(e) => Some(e),
    }
}

/// When a round is over, the players gone and the community cards taken back (as a round
/// that was played leaves the table), every card is in the deck exactly once.
pub proof fn lemma_deck_whole_after_round(t: TableView)
    requires
        super::table::seated(t),
        t.players.len() == 0,
        t.community.len() == 0,
    ensures
        forall|r: crate::card::Rank, su: crate::card::Suit| #[trigger] crate::deck::count_card(t.deck, r, su) == 1,
{
    assert forall|r: crate::card::Rank, su: crate::card::Suit| #[trigger] crate::deck::count_card(t.deck, r, su) == 1 by {
        assert(super::table::table_count(t, r, su) == 1);
        assert(super::table::hand_count(t.players, r, su) == 0);
        assert(crate::deck::count_card(t.community, r, su) == 0);
    }
}

/// Whether two players of `ps` share an account.
pub fn shared_account(ps: &Vec<Player>) -> (r: bool)
    ensures
        r == !player_ids(ps@.map_values(|p: Player| p@)).no_duplicates(),
{
    let ghost ids = player_ids(ps@.map_values(|p: Player| p@));
    let mut i: usize = 0;
    while i < ps.len()
        invariant
            i <= ps@.len(),
            ids == player_ids(ps@.map_values(|p: Player| p@)),
            forall|a: int, b: int| 0 <= a < b < ps@.len() && a < i ==> ids[a] != ids[b],
        decreases ps@.len() - i,
    {
        let mut j: usize = i + 1;
        while j < ps.len()
            invariant
                i < j <= ps@.len(),
                ids == player_ids(ps@.map_values(|p: Player| p@)),
                forall|a: int, b: int| 0 <= a < b < ps@.len() && a < i ==> ids[a] != ids[b],
                forall|b: int| i < b < j ==> ids[i as int] != ids[b],
            decreases ps@.len() - j,
        {
            if ps[i].account_id() == ps[j].account_id() {
                assert(ids[i as int] == ids[j as int]);
                return true;
            }
            j = j + 1;
        }
        i = i + 1;
    }
    false
}

/// Whether some player of `ps` holds cards.
pub fn holds_cards(ps: &Vec<Player>) -> (r: bool)
    ensures
        r == exists|i: int| 0 <= i < ps@.len() && (#[trigger] ps@[i])@.cards.len() > 0,
{
    let mut i: usize = 0;
    while i < ps.len()
        invariant
            i <= ps@.len(),
            forall|j: int| 0 <= j < i ==> (#[trigger] ps@[j])@.cards.len() == 0,
        decreases ps@.len() - i,
    {
        if ps[i].cards().len() > 0 {
            return true;
        }
        i = i + 1;
    }
    false
}

/// Whether the players' balances add up to more than a `usize` holds.
pub fn balances_overflow(ps: &Vec<Player>) -> (r: bool)
    ensures
        r == (balances(ps@.map_values(|p: Player| p@)) > usize::MAX),
{
    let ghost pv = ps@.map_values(|p: Player| p@);
    let mut sum: usize = 0;
    let mut i: usize = 0;
    assert(pv.subrange(0, 0) =~= Seq::<PlayerView>::empty());
    while i < ps.len()
        invariant
            i <= ps@.len(),
            pv == ps@.map_values(|p: Player| p@),
            sum == balances(pv.subrange(0, i as int)),
        decreases ps@.len() - i,
    {
        assert(pv.subrange(0, i + 1).drop_last() =~= pv.subrange(0, i as int));
        assert(pv[i as int] == ps@[i as int]@);
        match sum.checked_add(ps[i].balance()) {
            Some(x) => {
                sum = x;
            },
            None => {
                proof {
                    lemma_balances_prefix(pv, i + 1);
                }
                return true;
            },
        }
        i = i + 1;
    }
    assert(pv.subrange(0, ps@.len() as int) =~= pv);
    false
}

/// The balances of a prefix add up to no more than all balances.
pub proof fn lemma_balances_prefix(ps: Seq<PlayerView>, n: int)
    requires
        0 <= n <= ps.len(),
    ensures
        balances(ps.subrange(0, n)) <= balances(ps),
    decreases ps.len() - n,
{
    if n < ps.len() {
        lemma_balances_prefix(ps, n + 1);
        assert(ps.subrange(0, n + 1).drop_last() =~= ps.subrange(0, n));
    } else {
        assert(ps.subrange(0, n) =~= ps);
    }
}

/// A round under way: the players have the accounts and names they came with, the money at
/// the table is what they brought, the dealer sits at the table, and every turn so far
/// belongs to one of the round's phases.
pub open spec fn in_round(given: Seq<PlayerView>, t: TableView) -> bool {
    &&& same_accounts(given, t.players)
    &&& money(t) == balances(given)
    &&& balances(given) <= usize::MAX
    &&& t.players.len() >= 2
    &&& t.dealer_position < t.players.len()
    &&& forall|k: int| 0 <= k < t.pot.history.len() ==> (#[trigger] t.pot.history[k]).2 <= 5
}

/// Players given back after a round that went as far as `ps`, their cards returned, are the
/// players who came, with no more money.
pub proof fn lemma_back_after_abort(given: Seq<PlayerView>, ps: Seq<PlayerView>, back: Seq<PlayerView>)
    requires
        same_accounts(given, ps),
        balances(ps) <= balances(given),
        back.len() == ps.len(),
        forall|i: int| 0 <= i < ps.len() ==> #[trigger] back[i] == (PlayerView { cards: Seq::empty(), ..ps[i] }),
    ensures
        players_back(given, back),
        back == without_cards(ps),
{
    lemma_balances_same(ps, back);
    assert(back =~= without_cards(ps));
}

/// After the blinds, the round is under way.
pub proof fn lemma_blinds_stage(given: Seq<PlayerView>, t1: TableView, t2: TableView)
    requires
        same_accounts(given, t1.players),
        money(t1) == balances(given),
        balances(given) <= usize::MAX,
        t1.players.len() >= 2,
        t1.dealer_position < t1.players.len(),
        t1.pot.history.len() == 0,
        t2 == after_blinds(t1),
        money(t2) == money(t1),
    ensures
        in_round(given, t2),
{
    let t15 = super::table::after_first_blind(t1);
    assert(t2.pot.history.len() == 2);
    assert(t2.pot.history[0] == t15.pot.history[0]);
}

/// After a deal, the round is under way as before.
pub proof fn lemma_deal_stage(given: Seq<PlayerView>, a: TableView, b: TableView)
    requires
        in_round(given, a),
        b == (TableView { players: b.players, deck: b.deck, ..a }),
        b.players.len() == a.players.len(),
        forall|k: int| 0 <= k < a.players.len() ==> #[trigger] b.players[k] == (PlayerView { cards: b.players[k].cards, ..a.players[k] }),
    ensures
        in_round(given, b),
{
    lemma_balances_same(a.players, b.players);
}

/// After a bet phase, the round is under way as before.
pub proof fn lemma_bet_stage(given: Seq<PlayerView>, a: TableView, b: TableView, phase: usize)
    requires
        in_round(given, a),
        bet_progress(a, b, phase),
        money(b) == money(a),
        phase <= 5,
    ensures
        in_round(given, b),
{
    assert forall|k: int| 0 <= k < b.pot.history.len() implies (#[trigger] b.pot.history[k]).2 <= 5 by {
        if k < a.pot.history.len() {
            assert(b.pot.history.subrange(0, a.pot.history.len() as int)[k] == b.pot.history[k]);
        }
    }
}

/// After the draw phase, the round is under way as before.
pub proof fn lemma_draw_stage(given: Seq<PlayerView>, a: TableView, b: TableView)
    requires
        in_round(given, a),
        draw_progress(a, b),
    ensures
        in_round(given, b),
{
    lemma_balances_same(a.players, b.players);
    assert forall|k: int| 0 <= k < b.pot.history.len() implies (#[trigger] b.pot.history[k]).2 <= 5 by {
        if k < a.pot.history.len() {
            assert(b.pot.history.subrange(0, a.pot.history.len() as int)[k] == b.pot.history[k]);
        }
    }
}

/// After the showdown, the players have their accounts and names, and no more money than
/// they brought.
pub proof fn lemma_showdown_stage(given: Seq<PlayerView>, a: TableView, b: TableView, ok: bool)
    requires
        in_round(given, a),
        ({
            let h = a.pot.history;
            let tf = TableView { players: super::table::flipped_players(a.players, h), ..a };
            let w = crate::pot::spec_divide(a.pot, super::table::showdown_order(tf.players, h, tf.community));
            &&& ok ==> balances(b.players) <= money(a)
            &&& !ok ==> b == tf
            &&& ok ==> b.players == super::table::paid_players(tf.players, w)
        }),
    ensures
        same_accounts(given, b.players),
        balances(b.players) <= balances(given),
{
    let h = a.pot.history;
    let fp = super::table::flipped_players(a.players, h);
    assert(same_accounts(given, fp));
    if !ok {
        lemma_balances_same(a.players, fp);
    }
}

/// After community cards are dealt, the round is under way as before.
pub proof fn lemma_community_stage(given: Seq<PlayerView>, a: TableView, b: TableView)
    requires
        in_round(given, a),
        b == (TableView { community: b.community, deck: b.deck, ..a }),
    ensures
        in_round(given, b),
{
}

/// Dealing cards changes nobody's folding, so the same seats are dealt to.
pub proof fn lemma_dealt_seats_same(a: TableView, b: TableView, n: int)
    requires
        0 <= n <= a.players.len(),
        a.players.len() == b.players.len(),
        a.pot == b.pot,
        forall|k: int| 0 <= k < a.players.len() ==> (#[trigger] b.players[k]).account_id == a.players[k].account_id,
    ensures
        super::table::count_dealt_seats(a, n, true) == super::table::count_dealt_seats(b, n, true),
    decreases n,
{
    if n > 0 {
        lemma_dealt_seats_same(a, b, n - 1);
        assert(b.players[n - 1].account_id == a.players[n - 1].account_id);
    }
}

/// How many of some players folded is at most how many they are.
pub proof fn lemma_count_folded_bound(ids: Seq<u128>, h: Seq<crate::pot::TurnView>)
    ensures
        crate::pot::count_folded(ids, h) <= ids.len(),
    decreases ids.len(),
{
    if ids.len() > 0 {
        lemma_count_folded_bound(ids.drop_last(), h);
    }
}

/// No more players are all in than there are players.
pub proof fn lemma_count_all_in_bound(ps: Seq<PlayerView>)
    ensures
        super::table::count_all_in(ps) <= ps.len(),
    decreases ps.len(),
{
    if ps.len() > 0 {
        lemma_count_all_in_bound(ps.drop_last());
    }
}

/// A round of dealing to every seat deals to all of them.
pub proof fn lemma_all_seats_dealt(t: TableView, n: int)
    requires
        0 <= n <= t.players.len(),
    ensures
        super::table::count_dealt_seats(t, n, false) == n,
    decreases n,
{
    if n > 0 {
        lemma_all_seats_dealt(t, n - 1);
    }
}

} // verus!
