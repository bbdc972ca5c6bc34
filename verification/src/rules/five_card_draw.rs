use vstd::prelude::*;

use crate::card::{Rank, Suit};
use crate::deck::{Deck, count_card};
use crate::input::Input;
use crate::player::{Player, PlayerView};
use crate::pot::{Pot, total, zero_stakes};
use super::Rules;
use super::table::{
    Table, TableView, views, player_ids, balances, money, count_all_in, after_blinds, blinds_payable,
    bet_progress, draw_progress, hand_count, lemma_balances_same, bet_start, bet_phase_played, draw_phase_played,
};
use super::round::{
    players_back, round_refusal, players_given_back, same_accounts, players_ready, holds_cards, balances_overflow,
    without_cards, round_start, blind_error, dealt_down, showdown_stage,
    lemma_back_after_abort, lemma_blinds_stage, lemma_deal_stage, lemma_bet_stage, lemma_draw_stage,
    lemma_showdown_stage, lemma_all_seats_dealt,
};

verus! {

/// Five Card Draw: every player is dealt five cards; a bet phase follows, then a draw phase
/// in which players may replace cards, a second bet phase, and the showdown.
///
/// The table keeps the players, the deck, the dealer's and the current player's seats, the
/// raise limit, the big blind (the minimum bet), how players are asked for their choices,
/// and the pot.
pub struct FiveCardDraw<I: Input> {
    table: Table<I>,
    game_id: u128,
}

impl<I: Input> View for FiveCardDraw<I> {
    type V = TableView;

    closed spec fn view(&self) -> TableView {
        self.table@
    }
}

impl<I: Input> FiveCardDraw<I> {
    /// The ID of the game, as a value.
    pub closed spec fn game(&self) -> u128 {
        self.game_id
    }

    /// The players, in seat order.
    pub fn players(&self) -> (p: &Vec<Player>)
        ensures
            p@.map_values(|x: Player| x@) == self@.players,
    {
        self.table.players()
    }

    /// The deck.
    pub fn deck(&self) -> (d: &Deck)
        ensures
            d@ == self@.deck,
    {
        self.table.deck()
    }

    /// The handler that players' choices are asked of and the table is shown through.
    pub closed spec fn handler(&self) -> I {
        self.table.handler()
    }

    /// The input handler, to be changed in place: what it becomes is the game's handler,
    /// and nothing else in the game changes.
    pub fn input_mut(&mut self) -> (i: &mut I)
        ensures
            *i == old(self).handler(),
            final(self).handler() == *final(i),
            final(self)@ == old(self)@,
    {
        self.table.input_mut()
    }

    /// The dealer's seat.
    pub fn dealer_position(&self) -> (d: usize)
        ensures
            d == self@.dealer_position,
    {
        self.table.dealer_position()
    }

    /// The seat of the player to act.
    pub fn current_player_index(&self) -> (c: usize)
        ensures
            c == self@.current_player_index,
    {
        self.table.current_player_index()
    }

    /// Seats the players, who hold no cards, and clears the pot for them.
    pub fn set_players(&mut self, players: Vec<Player>)
        requires
            old(self).wf(),
            player_ids(players@.map_values(|p: Player| p@)).no_duplicates(),
            players@.len() < u32::MAX,
            forall|i: int| 0 <= i < players@.len() ==> (#[trigger] players@[i])@.cards.len() == 0,
            forall|i: int| 0 <= i < old(self)@.players.len() ==> (#[trigger] old(self)@.players[i]).cards.len() == 0,
        ensures
            final(self).wf(),
            final(self)@ == (TableView {
                players: players@.map_values(|p: Player| p@),
                pot: crate::pot::PotView {
                    history: Seq::empty(),
                    stakes: zero_stakes(player_ids(players@.map_values(|p: Player| p@))),
                },
                ..old(self)@
            }),
    {
        let _ = self.table.seat_players(players);
    }

    /// Counts the players who have nothing left to bet.
    pub fn number_of_players_all_in(&self) -> (n: usize)
        ensures
            n == count_all_in(self@.players),
    {
        self.table.number_of_players_all_in()
    }

    /// Moves the dealer to the next seat, back to the first after the last.
    pub fn increment_dealer_position(&mut self)
        requires
            old(self).wf(),
        ensures
            final(self).wf(),
            final(self)@ == (TableView {
                dealer_position: if old(self)@.dealer_position + 1 >= old(self)@.players.len() {
                    0
                } else {
                    (old(self)@.dealer_position + 1) as usize
                },
                ..old(self)@
            }),
    {
        self.table.increment_dealer_position()
    }

    /// Moves the turn to the next seat, back to the first after the last.
    pub fn increment_player_index(&mut self)
        requires
            old(self).wf(),
            old(self)@.current_player_index < usize::MAX,
        ensures
            final(self).wf(),
            final(self)@ == (TableView {
                current_player_index: if old(self)@.current_player_index + 1 == old(self)@.players.len() {
                    0
                } else {
                    (old(self)@.current_player_index + 1) as usize
                },
                ..old(self)@
            }),
    {
        self.table.increment_player_index()
    }

    /// The first and second players after the dealer bet blind (see `Table::play_blinds`).
    pub fn play_blinds(&mut self) -> (r: Result<(), &'static str>)
        requires
            old(self).wf(),
            old(self)@.dealer_position < old(self)@.players.len(),
            old(self)@.current_player_index < usize::MAX - 1,
        ensures
            final(self).wf(),
            r is Ok <==> blinds_payable(old(self)@),
            r is Ok ==> final(self)@ == after_blinds(old(self)@),
            r is Err ==> final(self)@ == old(self)@,
            r matches Err(e) ==> super::round::blind_error(e),
    {
        self.table.play_blinds()
    }

    /// Each player is dealt five cards face down, one at a time round the table. When the
    /// deck runs out, an error is returned.
    pub fn deal_initial_cards(&mut self) -> (r: Result<(), String>)
        requires
            old(self).wf(),
        ensures
            final(self).wf(),
            r is Ok <==> old(self)@.deck.len() >= 5 * old(self)@.players.len(),
            final(self)@ == (TableView { players: final(self)@.players, deck: final(self)@.deck, ..old(self)@ }),
            final(self)@.players.len() == old(self)@.players.len(),
            forall|k: int| 0 <= k < old(self)@.players.len() ==> {
                let p0 = old(self)@.players[k];
                let p1 = #[trigger] final(self)@.players[k];
                &&& p1 == (PlayerView { cards: p1.cards, ..p0 })
                &&& r is Ok ==> p1.cards.len() == p0.cards.len() + 5 && p1.cards.subrange(0, p0.cards.len() as int)
                    == p0.cards && forall|j: int| p0.cards.len() <= j < p1.cards.len() ==> !(#[trigger] p1.cards[j])@.face_up
            },
    {
        let ghost t0 = self@;
        let n = self.table.players().len();
        let mut round: usize = 0;
        while round < 5
            invariant
                self.wf(),
                round <= 5,
                n == t0.players.len(),
                t0 == old(self)@,
                self@ == (TableView { players: self@.players, deck: self@.deck, ..t0 }),
                self@.players.len() == n,
                self@.deck.len() + round * n == t0.deck.len(),
                forall|k: int| 0 <= k < n ==> {
                    let p0 = t0.players[k];
                    let p1 = #[trigger] self@.players[k];
                    &&& p1 == (PlayerView { cards: p1.cards, ..p0 })
                    &&& p1.cards.len() == p0.cards.len() + round
                    &&& p1.cards.subrange(0, p0.cards.len() as int) == p0.cards
                    &&& forall|j: int| p0.cards.len() <= j < p1.cards.len() ==> !(#[trigger] p1.cards[j])@.face_up
                },
            decreases 5 - round,
        {
            let ghost t1 = self@;
            proof {
                lemma_all_seats_dealt(t1, n as int);
            }
            match self.table.deal_round(false, false) {
                Ok(()) => {
                    proof {
                        assert forall|k: int| 0 <= k < n implies {
                            let p0 = t0.players[k];
                            let p1 = #[trigger] self@.players[k];
                            &&& p1 == (PlayerView { cards: p1.cards, ..p0 })
                            &&& p1.cards.len() == p0.cards.len() + round + 1
                            &&& p1.cards.subrange(0, p0.cards.len() as int) == p0.cards
                            &&& forall|j: int| p0.cards.len() <= j < p1.cards.len() ==> !(#[trigger] p1.cards[j])@.face_up
                        } by {
                            let p0 = t0.players[k];
                            let pm = t1.players[k];
                            let p1 = self@.players[k];
                            assert(super::table::dealt_seat(t1, k, false));
                            assert(p1.cards.drop_last() == pm.cards);
                            assert(p1.cards.subrange(0, p0.cards.len() as int) =~= pm.cards.subrange(0, p0.cards.len() as int));
                            assert forall|j: int| p0.cards.len() <= j < p1.cards.len() implies !(#[trigger] p1.cards[j])@.face_up by {
                                if j < p1.cards.len() - 1 {
                                    assert(p1.cards[j] == pm.cards[j]);
                                }
                            }
                        }
                    }
                },
                Err(e) => {
                    proof {
                        assert(t1.deck.len() < n);
                        assert forall|k: int| 0 <= k < n implies #[trigger] self@.players[k] == (PlayerView {
                            cards: self@.players[k].cards,
                            ..t0.players[k]
                        }) by {
                            assert(t1.players[k] == (PlayerView { cards: t1.players[k].cards, ..t0.players[k] }));
                        }
                        assert(t0.deck.len() < 5 * n) by (nonlinear_arith)
                            requires
                                t1.deck.len() + round * n == t0.deck.len(),
                                t1.deck.len() < n,
                                round < 5,
                        ;
                    }
                    return Err(e);
                },
            }
            assert(self@.deck.len() + (round + 1) * n == t0.deck.len()) by (nonlinear_arith)
                requires
                    self@.deck.len() + n == t1.deck.len(),
                    t1.deck.len() + round * n == t0.deck.len(),
            ;
            round = round + 1;
        }
        Ok(())
    }

    /// A bet phase of five card draw: it starts with the dealer's seat; a player short of
    /// the call amount is offered to go all in or fold.
    pub fn play_bet_phase(&mut self, phase_number: usize) -> (r: Result<(), &'static str>)
        requires
            old(self).wf(),
            old(self)@.players.len() > 0,
            old(self)@.dealer_position < old(self)@.players.len(),
            money(old(self)@) <= usize::MAX,
        ensures
            final(self).wf(),
            money(final(self)@) == money(old(self)@),
            bet_progress(old(self)@, final(self)@, phase_number),
            forall|k: int| 0 <= k < old(self)@.players.len() ==> #[trigger] super::table::holdings(final(self)@, k)
                == super::table::holdings(old(self)@, k),
            super::table::bet_phase_played(super::table::bet_start(old(self)@, true), final(self)@, r, phase_number),
            final(self)@.current_player_index < final(self)@.players.len(),
    {
        self.table.play_bet_phase(phase_number, true, true, false)
    }

    /// The first bet phase.
    pub fn play_phase_one(&mut self) -> (r: Result<(), &'static str>)
        requires
            old(self).wf(),
            old(self)@.players.len() > 0,
            old(self)@.dealer_position < old(self)@.players.len(),
            money(old(self)@) <= usize::MAX,
        ensures
            final(self).wf(),
            money(final(self)@) == money(old(self)@),
            bet_progress(old(self)@, final(self)@, 1),
            forall|k: int| 0 <= k < old(self)@.players.len() ==> #[trigger] super::table::holdings(final(self)@, k)
                == super::table::holdings(old(self)@, k),
            super::table::bet_phase_played(super::table::bet_start(old(self)@, true), final(self)@, r, 1),
            final(self)@.current_player_index < final(self)@.players.len(),
    {
        self.play_bet_phase(1)
    }

    /// The draw phase (see `Table::play_draw_phase`); house rules: players may discard as many
    /// cards as they wish and draw new replacements.
    pub fn play_draw_phase(&mut self) -> (r: Result<(), &'static str>)
        requires
            old(self).wf(),
            old(self)@.players.len() > 0,
            old(self)@.current_player_index < old(self)@.players.len(),
            total(old(self)@.pot.stakes) <= usize::MAX,
        ensures
            final(self).wf(),
            draw_progress(old(self)@, final(self)@),
            final(self)@.current_player_index < final(self)@.players.len(),
            super::table::draw_phase_played(old(self)@, final(self)@, r),
    {
        self.table.play_draw_phase()
    }

    /// The second bet phase, which starts with the dealer's seat again.
    pub fn play_phase_two(&mut self) -> (r: Result<(), &'static str>)
        requires
            old(self).wf(),
            old(self)@.players.len() > 0,
            old(self)@.dealer_position < old(self)@.players.len(),
            money(old(self)@) <= usize::MAX,
        ensures
            final(self).wf(),
            money(final(self)@) == money(old(self)@),
            bet_progress(old(self)@, final(self)@, 3),
            forall|k: int| 0 <= k < old(self)@.players.len() ==> #[trigger] super::table::holdings(final(self)@, k)
                == super::table::holdings(old(self)@, k),
            super::table::bet_phase_played(super::table::bet_start(old(self)@, true), final(self)@, r, 3),
            final(self)@.current_player_index < final(self)@.players.len(),
    {
        self.play_bet_phase(3)
    }

    /// Turns face up the cards of every player who has not folded.
    pub fn flip_non_folded_players_cards_up(&mut self)
        requires
            old(self).wf(),
        ensures
            final(self).wf(),
            final(self)@ == (TableView {
                players: super::table::flipped_players(old(self)@.players, old(self)@.pot.history),
                ..old(self)@
            }),
    {
        self.table.flip_non_folded_players_cards_up()
    }

    /// The showdown (see `Table::showdown`).
    pub fn showdown(&mut self) -> (r: Result<(), &'static str>)
        requires
            old(self).wf(),
            old(self)@.players.len() > 0,
            old(self)@.current_player_index < old(self)@.players.len(),
            money(old(self)@) <= usize::MAX,
            old(self)@.pot.history.len() > 0 ==> old(self)@.pot.history.last().2 < usize::MAX,
        ensures
            final(self).wf(),
            ({
                let t = old(self)@;
                let h = t.pot.history;
                let tf = TableView { players: super::table::flipped_players(t.players, h), ..t };
                let w = crate::pot::spec_divide(t.pot, super::table::showdown_order(tf.players, h, tf.community));
                &&& r is Ok <==> super::table::showdown_ready(tf.players, h, tf.community)
                &&& r is Ok ==> balances(final(self)@.players) <= money(t)
                &&& r is Err ==> final(self)@ == tf
                &&& r matches Err(e) ==> super::round::showdown_error(e)
                &&& r is Ok ==> final(self)@ == (TableView {
                    players: super::table::paid_players(tf.players, w),
                    pot: crate::pot::PotView {
                        history: h + crate::pot::settlement_turns(t.pot.stakes, w, crate::pot::next_phase(h)),
                        stakes: t.pot.stakes,
                    },
                    ..tf
                })
            }),
    {
        self.table.showdown()
    }

    /// Takes back every player's cards into the deck.
    pub fn return_player_cards(&mut self)
        requires
            old(self).wf(),
        ensures
            final(self).wf(),
            final(self)@ == (TableView { players: final(self)@.players, deck: final(self)@.deck, ..old(self)@ }),
            final(self)@.players.len() == old(self)@.players.len(),
            forall|i: int| 0 <= i < old(self)@.players.len() ==> #[trigger] final(self)@.players[i] == (PlayerView {
                cards: Seq::empty(),
                ..old(self)@.players[i]
            }),
            forall|r: Rank, su: Suit| #[trigger] count_card(final(self)@.deck, r, su)
                == count_card(old(self)@.deck, r, su) + hand_count(old(self)@.players, r, su),
    {
        self.table.return_player_cards()
    }
}

impl<I: Input> FiveCardDraw<I> {
    /// Ends a round that cannot go on: the cards go back to the deck and the players leave
    /// the table, given back with the reason.
    fn abort_round(&mut self, reason: &'static str) -> (r: (&'static str, Vec<Player>))
        requires
            old(self).wf(),
        ensures
            final(self).wf(),
            r.0 == reason,
            views(r.1@).len() == old(self)@.players.len(),
            forall|i: int| 0 <= i < old(self)@.players.len() ==> #[trigger] views(r.1@)[i]
                == (PlayerView { cards: Seq::empty(), ..old(self)@.players[i] }),
            final(self)@.players.len() == 0,
            final(self)@.community.len() == 0,
    {
        self.table.return_player_cards();
        self.table.return_community_cards();
        let ghost t1 = self@;
        let ps = self.table.take_players();
        (reason, ps)
    }
}

/// A round of five card draw from the table `t`, where the players have just taken their
/// seats (see `round_start`), gives back the players `back` with the error `err`: the blinds
/// are paid, or the round ends with the reason they were refused; five cards are dealt face
/// down to each player, and the first bet phase follows.
pub open spec fn five_card_draw_round(t: TableView, back: Seq<PlayerView>, err: Option<&'static str>) -> bool {
    if blinds_payable(t) {
        exists|f: TableView| #[trigger] dealt_down(after_blinds(t), f, 5) && first_bet_stage(f, back, err)
    } else {
        (err matches Some(e) && blind_error(e)) && back == without_cards(t.players)
    }
}

/// The first bet phase of five card draw from `t`, starting with the dealer's seat; when it
/// fails, the round ends with its reason, else the draw phase follows.
pub open spec fn first_bet_stage(t: TableView, back: Seq<PlayerView>, err: Option<&'static str>) -> bool {
    exists|f: TableView, r: Result<(), &'static str>| {
        &&& #[trigger] bet_phase_played(bet_start(t, true), f, r, 1)
        &&& bet_progress(t, f, 1)
        &&& r matches Err(e) ==> err == Some(e) && back == without_cards(f.players)
        &&& r is Ok ==> draw_stage(f, back, err)
    }
}

/// The draw phase of five card draw from `t`; when it fails, the round ends with its
/// reason, else the second bet phase follows.
pub open spec fn draw_stage(t: TableView, back: Seq<PlayerView>, err: Option<&'static str>) -> bool {
    exists|f: TableView, r: Result<(), &'static str>| {
        &&& #[trigger] draw_phase_played(t, f, r)
        &&& draw_progress(t, f)
        &&& r matches Err(e) ==> err == Some(e) && back == without_cards(f.players)
        &&& r is Ok ==> second_bet_stage(f, back, err)
    }
}

/// The second bet phase of five card draw from `t`, starting with the dealer's seat again;
/// when it fails, the round ends with its reason, else the showdown follows.
pub open spec fn second_bet_stage(t: TableView, back: Seq<PlayerView>, err: Option<&'static str>) -> bool {
    exists|f: TableView, r: Result<(), &'static str>| {
        &&& #[trigger] bet_phase_played(bet_start(t, true), f, r, 3)
        &&& bet_progress(t, f, 3)
        &&& r matches Err(e) ==> err == Some(e) && back == without_cards(f.players)
        &&& r is Ok ==> showdown_stage(f, back, err)
    }
}

impl<I: Input> Rules for FiveCardDraw<I> {
    open spec fn wf(&self) -> bool {
        super::table::seated(self@)
    }

    /// A round of five card draw is refused, the game unchanged and the players given back as
    /// they came, when `round_refusal` says so; otherwise it is played as
    /// `five_card_draw_round` says from the table where the players took their seats, and
    /// the players leave the table.
    open spec fn round_played(
        before: Self,
        after: Self,
        given: Seq<PlayerView>,
        back: Seq<PlayerView>,
        err: Option<&'static str>,
    ) -> bool {
        match round_refusal(
            before@,
            given,
            10,
            "Cannot start a game with more than 10 players, as the deck may run out of cards",
        ) {
            Some(reason) => err == Some(reason) && back == given && after@ == before@,
            None => {
                &&& after@.players.len() == 0
                &&& after@.community.len() == 0
                &&& players_back(given, back)
                &&& five_card_draw_round(round_start(before@, given), back, err)
            },
        }
    }

    /// A new game of five card draw: no players yet, a full deck, an empty pot.
    fn new(raise_limit: u32, minimum_bet: u32, game_id: u128) -> (r: FiveCardDraw<I>)
        ensures
            r.wf(),
            r@.players.len() == 0,
            r@.deck.len() == 52,
            r@.dealer_position == 0,
            r@.current_player_index == 0,
            r@.raise_limit == raise_limit,
            r@.big_blind_amount == minimum_bet,
            r@.pot.history.len() == 0,
            r@.pot.stakes.len() == 0,
            r@.community.len() == 0,
            r.game() == game_id,
    {
        FiveCardDraw { table: Table::new(raise_limit, minimum_bet), game_id }
    }

    /// Plays a whole round of five card draw: the dealer moves on, the blinds are paid, five
    /// cards are dealt to each player, a bet phase, the draw phase and a second bet phase are
    /// played, and the pot is divided at the showdown. The cards go back to the deck and the
    /// players are given back.
    ///
    /// A round is refused, with the players given back unchanged, when `round_refusal` says
    /// so (fewer than 2 or more than 10 players among others). Otherwise, the players are
    /// given back with their accounts, names and no cards, and never with more money in all
    /// than they brought; when a phase fails (an answer missing or not allowed), the reason
    /// is given with them.
    fn play_round(&mut self, players: Vec<Player>) -> (r: Result<Vec<Player>, (&'static str, Vec<Player>)>)
        ensures
            final(self).wf(),
            ({
                let given = players@.map_values(|p: Player| p@);
                let refusal = round_refusal(
                    old(self)@,
                    given,
                    10,
                    "Cannot start a game with more than 10 players, as the deck may run out of cards",
                );
                &&& refusal matches Some(reason) ==> r == Err::<Vec<Player>, (&'static str, Vec<Player>)>((reason, players))
                    && final(self)@ == old(self)@
                &&& refusal is None ==> {
                    &&& players_back(given, players_given_back(r))
                    &&& final(self)@.players.len() == 0
                }
            }),
    {
        let ghost given = players@.map_values(|p: Player| p@);
        if players.len() < 2 {
            return Err(("Cannot start a game with less than 2 players", players));
        }
        if players.len() > 10 {
            return Err(("Cannot start a game with more than 10 players, as the deck may run out of cards", players));
        }
        if balances_overflow(&players) {
            return Err(("The players' balances are too large", players));
        }
        let seated = self.table.players();
        if self.table.deck().size() != 52 || self.table.community_cards().len() != 0 || holds_cards(seated) {
            proof {
                if exists|i: int| 0 <= i < seated@.len() && (#[trigger] seated@[i])@.cards.len() > 0 {
                    let i = choose|i: int| 0 <= i < seated@.len() && (#[trigger] seated@[i])@.cards.len() > 0;
                    assert(old(self)@.players[i] == seated@[i]@);
                }
                assert forall|i: int| 0 <= i < players@.len() implies (#[trigger] given[i]).cards.len() == 0 by {
                    assert(given[i] == players@[i]@);
                    assert(!(players@[i]@.cards.len() > 0));
                }
            }
            return Err(("The deck must be complete when a round starts", players));
        }
        proof {
            assert forall|i: int| 0 <= i < players@.len() implies (#[trigger] players@[i])@.cards.len() == 0 by {
                assert(given[i] == players@[i]@);
            }
            assert forall|i: int| 0 <= i < old(self)@.players.len() implies (#[trigger] old(self)@.players[i]).cards.len() == 0 by {
                assert(old(self)@.players[i] == seated@[i]@);
                assert(!(seated@[i]@.cards.len() > 0));
            }
        }
        let n = players.len();
        let _ = self.table.seat_players(players);
        let ghost t0 = self@;
        proof {
            crate::pot::lemma_zero_stakes(player_ids(given));
            lemma_balances_same(given, t0.players);
            assert(money(t0) == balances(given));
        }
        self.table.increment_dealer_position();
        self.table.reset_turn_to_dealer();
        let ghost t1 = self@;
        proof {
            assert forall|i: int| 0 <= i < t1.pot.stakes.len() implies (#[trigger] t1.pot.stakes[i]).1 == 0 by {
                assert(t1.pot.stakes == zero_stakes(player_ids(given)));
            }
            lemma_balances_same(t0.players, t1.players);
            assert(same_accounts(given, t1.players));
            assert(t1 == round_start(old(self)@, given));
        }
        match self.table.play_blinds() {
            Ok(()) => {},
            Err(e) => {
                let r = self.abort_round(e);
                proof {
                    lemma_back_after_abort(given, t1.players, r.1@.map_values(|p: Player| p@));
                    assert(five_card_draw_round(t1, r.1@.map_values(|p: Player| p@), Some(e)));
                }
                return Err(r);
            },
        }
        proof {
            lemma_blinds_stage(given, t1, self@);
        }
        let ghost t2 = self@;
        match self.deal_initial_cards() {
            Ok(()) => {},
            Err(_) => {
                proof {
                    assert(t2.deck == t1.deck);
                    assert(t2.deck.len() >= 5 * t2.players.len());
                }
                let r = self.abort_round("There are no cards remaining in the deck, so no card can be dealt");
                return Err(r);
            },
        }
        proof {
            lemma_deal_stage(given, t2, self@);
        }
        let ghost t3 = self@;
        proof {
            assert(dealt_down(t2, t3, 5));
        }
        let phase_one = self.play_phase_one();
        proof {
            lemma_bet_stage(given, t3, self@, 1);
        }
        let ghost t4 = self@;
        if let Err(e) = phase_one {
            let r = self.abort_round(e);
            proof {
                let back = r.1@.map_values(|p: Player| p@);
                lemma_back_after_abort(given, t4.players, back);
                assert(bet_phase_played(bet_start(t3, true), t4, phase_one, 1));
                assert(first_bet_stage(t3, back, Some(e)));
                assert(five_card_draw_round(t1, back, Some(e)));
            }
            return Err(r);
        }
        let draw = self.play_draw_phase();
        proof {
            lemma_draw_stage(given, t4, self@);
        }
        let ghost t5 = self@;
        if let Err(e) = draw {
            let r = self.abort_round(e);
            proof {
                let back = r.1@.map_values(|p: Player| p@);
                lemma_back_after_abort(given, t5.players, back);
                assert(draw_phase_played(t4, t5, draw));
                assert(draw_stage(t4, back, Some(e)));
                assert(bet_phase_played(bet_start(t3, true), t4, phase_one, 1));
                assert(first_bet_stage(t3, back, Some(e)));
                assert(five_card_draw_round(t1, back, Some(e)));
            }
            return Err(r);
        }
        let phase_two = self.play_phase_two();
        proof {
            lemma_bet_stage(given, t5, self@, 3);
        }
        let ghost t6 = self@;
        if let Err(e) = phase_two {
            let r = self.abort_round(e);
            proof {
                let back = r.1@.map_values(|p: Player| p@);
                lemma_back_after_abort(given, t6.players, back);
                assert(bet_phase_played(bet_start(t5, true), t6, phase_two, 3));
                assert(second_bet_stage(t5, back, Some(e)));
                assert(draw_phase_played(t4, t5, draw));
                assert(draw_stage(t4, back, Some(e)));
                assert(bet_phase_played(bet_start(t3, true), t4, phase_one, 1));
                assert(first_bet_stage(t3, back, Some(e)));
                assert(five_card_draw_round(t1, back, Some(e)));
            }
            return Err(r);
        }
        proof {
            assert(t6.pot.history.len() > 0 ==> t6.pot.history.last().2 <= 5) by {
                if t6.pot.history.len() > 0 {
                    assert(t6.pot.history.last() == t6.pot.history[t6.pot.history.len() - 1]);
                }
            }
        }
        let result = self.showdown();
        proof {
            lemma_showdown_stage(given, t6, self@, result is Ok);
        }
        if let Err(e) = result {
            let ghost ta = self@;
            let r = self.abort_round(e);
            proof {
                let back = r.1@.map_values(|p: Player| p@);
                lemma_back_after_abort(given, ta.players, back);
                assert(showdown_stage(t6, back, Some(e)));
                assert(bet_phase_played(bet_start(t5, true), t6, phase_two, 3));
                assert(second_bet_stage(t5, back, Some(e)));
                assert(draw_phase_played(t4, t5, draw));
                assert(draw_stage(t4, back, Some(e)));
                assert(bet_phase_played(bet_start(t3, true), t4, phase_one, 1));
                assert(first_bet_stage(t3, back, Some(e)));
                assert(five_card_draw_round(t1, back, Some(e)));
            }
            return Err(r);
        }
        let ghost t7 = self@;
        self.table.return_player_cards();
        self.table.return_community_cards();
        let ps = self.table.take_players();
        proof {
            let back = ps@.map_values(|p: Player| p@);
            let none: Option<&'static str> = None;
            lemma_back_after_abort(given, t7.players, back);
            assert(showdown_stage(t6, back, none));
            assert(bet_phase_played(bet_start(t5, true), t6, phase_two, 3));
            assert(second_bet_stage(t5, back, none));
            assert(draw_phase_played(t4, t5, draw));
            assert(draw_stage(t4, back, none));
            assert(bet_phase_played(bet_start(t3, true), t4, phase_one, 1));
            assert(first_bet_stage(t3, back, none));
            assert(five_card_draw_round(t1, back, none));
        }
        Ok(ps)
    }

    /// The pot of the last round.
    fn pot(&self) -> (p: &Pot)
        ensures
            p@ == self@.pot,
    {
        self.table.pot()
    }

    /// The ID of the game.
    fn game_id(&self) -> (id: u128)
        ensures
            id == self.game(),
    {
        self.game_id
    }
}

} // verus!
