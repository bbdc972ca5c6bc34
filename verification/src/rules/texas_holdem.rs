use vstd::prelude::*;

use crate::card::{Rank, Suit};
use crate::deck::{Deck, count_card};
use crate::input::Input;
use crate::player::{Player, PlayerView};
use crate::pot::{Pot, zero_stakes};
use super::Rules;
use crate::pot::{count_folded, first_ids};
use super::table::{
    Table, TableView, views, player_ids, balances, money, count_all_in, after_blinds, blinds_payable,
    bet_progress, hand_count, lemma_balances_same, count_dealt_seats, dealt_seat, round_dealt, bet_start,
    bet_phase_played,
};
use super::round::{
    without_cards, round_start, blind_error, showdown_error, lemma_without_cards_same, in_round, showdown_ends,
    step_error,
    players_back, round_refusal, players_given_back, same_accounts, players_ready, holds_cards, balances_overflow,
    lemma_back_after_abort, lemma_blinds_stage, lemma_bet_stage, lemma_showdown_stage, lemma_community_stage,
    lemma_dealt_seats_same, lemma_count_folded_bound, lemma_count_all_in_bound,
};

verus! {

/// How many of the first `n` seats hold a player who can still take bet actions: one who
/// has not folded and has something left to bet with.
pub open spec fn able_to_bet(t: TableView, n: int) -> nat
    decreases n,
{
    if n <= 0 {
        0
    } else {
        able_to_bet(t, n - 1) + (if !crate::pot::folded_in(t.pot.history, t.players[n - 1].account_id)
            && t.players[n - 1].balance > 0 {
            1nat
        } else {
            0nat
        })
    }
}

/// Who can still bet depends only on the players and the pot.
proof fn lemma_able_to_bet_same(a: TableView, b: TableView, n: int)
    requires
        a.players == b.players,
        a.pot == b.pot,
    ensures
        able_to_bet(a, n) == able_to_bet(b, n),
    decreases n,
{
    if n > 0 {
        lemma_able_to_bet_same(a, b, n - 1);
    }
}

/// Texas Hold'em: every player is dealt two cards face down; four bet phases follow, the
/// flop (three community cards, face up) being dealt after the first and one more community
/// card after each of the second and third; then the showdown.
///
/// The table keeps the players, the deck, the dealer's and the current player's seats, the
/// raise limit, the big blind (the minimum bet), how players are asked for their choices,
/// and the pot.
pub struct TexasHoldem<I: Input> {
    table: Table<I>,
    game_id: u128,
}

impl<I: Input> View for TexasHoldem<I> {
    type V = TableView;

    closed spec fn view(&self) -> TableView {
        self.table@
    }
}

impl<I: Input> TexasHoldem<I> {
    /// The ID of the game, as a value.
    pub closed spec fn game(&self) -> u128 {
        self.game_id
    }

    /// The players, in seat order.
    pub fn players(&self) -> (p: &Vec<Player>)
        ensures
            p@.map_values(|x: Player| x@) == self@.players,
    {
        self.table.players()
    }

    /// The deck.
    pub fn deck(&self) -> (d: &Deck)
        ensures
            d@ == self@.deck,
    {
        self.table.deck()
    }

    /// The handler that players' choices are asked of and the table is shown through.
    pub closed spec fn handler(&self) -> I {
        self.table.handler()
    }

    /// The input handler, to be changed in place: what it becomes is the game's handler,
    /// and nothing else in the game changes.
    pub fn input_mut(&mut self) -> (i: &mut I)
        ensures
            *i == old(self).handler(),
            final(self).handler() == *final(i),
            final(self)@ == old(self)@,
    {
        self.table.input_mut()
    }

    /// The dealer's seat.
    pub fn dealer_position(&self) -> (d: usize)
        ensures
            d == self@.dealer_position,
    {
        self.table.dealer_position()
    }

    /// The seat of the player to act.
    pub fn current_player_index(&self) -> (c: usize)
        ensures
            c == self@.current_player_index,
    {
        self.table.current_player_index()
    }

    /// Seats the players, who hold no cards, and clears the pot for them.
    pub fn set_players(&mut self, players: Vec<Player>)
        requires
            old(self).wf(),
            player_ids(players@.map_values(|p: Player| p@)).no_duplicates(),
            players@.len() < u32::MAX,
            forall|i: int| 0 <= i < players@.len() ==> (#[trigger] players@[i])@.cards.len() == 0,
            forall|i: int| 0 <= i < old(self)@.players.len() ==> (#[trigger] old(self)@.players[i]).cards.len() == 0,
        ensures
            final(self).wf(),
            final(self)@ == (TableView {
                players: players@.map_values(|p: Player| p@),
                pot: crate::pot::PotView {
                    history: Seq::empty(),
                    stakes: zero_stakes(player_ids(players@.map_values(|p: Player| p@))),
                },
                ..old(self)@
            }),
    {
        let _ = self.table.seat_players(players);
    }

    /// Counts the players who have nothing left to bet.
    pub fn number_of_players_all_in(&self) -> (n: usize)
        ensures
            n == count_all_in(self@.players),
    {
        self.table.number_of_players_all_in()
    }

    /// Moves the dealer to the next seat, back to the first after the last.
    pub fn increment_dealer_position(&mut self)
        requires
            old(self).wf(),
        ensures
            final(self).wf(),
            final(self)@ == (TableView {
                dealer_position: if old(self)@.dealer_position + 1 >= old(self)@.players.len() {
                    0
                } else {
                    (old(self)@.dealer_position + 1) as usize
                },
                ..old(self)@
            }),
    {
        self.table.increment_dealer_position()
    }

    /// Moves the turn to the next seat, back to the first after the last.
    pub fn increment_player_index(&mut self)
        requires
            old(self).wf(),
            old(self)@.current_player_index < usize::MAX,
        ensures
            final(self).wf(),
            final(self)@ == (TableView {
                current_player_index: if old(self)@.current_player_index + 1 == old(self)@.players.len() {
                    0
                } else {
                    (old(self)@.current_player_index + 1) as usize
                },
                ..old(self)@
            }),
    {
        self.table.increment_player_index()
    }

    /// The first and second players after the dealer bet blind (see `Table::play_blinds`).
    pub fn play_blinds(&mut self) -> (r: Result<(), &'static str>)
        requires
            old(self).wf(),
            old(self)@.dealer_position < old(self)@.players.len(),
            old(self)@.current_player_index < usize::MAX - 1,
        ensures
            final(self).wf(),
            r is Ok <==> blinds_payable(old(self)@),
            r is Ok ==> final(self)@ == after_blinds(old(self)@),
            r is Err ==> final(self)@ == old(self)@,
    {
        self.table.play_blinds()
    }

    /// A bet phase of hold'em: the first starts with the player whose turn it is (the one
    /// after the big blind), the others with the dealer's seat; every player is shown the
    /// balances, and a player short of the call amount is offered call, raise or fold, of
    /// which only fold is then allowed, besides going all in.
    pub fn play_bet_phase(&mut self, phase_number: usize) -> (r: Result<(), &'static str>)
        requires
            old(self).wf(),
            old(self)@.players.len() > 0,
            phase_number != 1 ==> old(self)@.dealer_position < old(self)@.players.len(),
            phase_number == 1 ==> old(self)@.current_player_index < old(self)@.players.len(),
            money(old(self)@) <= usize::MAX,
        ensures
            final(self).wf(),
            money(final(self)@) == money(old(self)@),
            bet_progress(old(self)@, final(self)@, phase_number),
            forall|k: int| 0 <= k < old(self)@.players.len() ==> #[trigger] super::table::holdings(final(self)@, k)
                == super::table::holdings(old(self)@, k),
            super::table::bet_phase_played(super::table::bet_start(old(self)@, phase_number != 1), final(self)@, r, phase_number),
            final(self)@.current_player_index < final(self)@.players.len(),
    {
        self.table.play_bet_phase(phase_number, phase_number != 1, false, true)
    }

    /// The first bet phase, before the flop.
    pub fn play_phase_one(&mut self) -> (r: Result<(), &'static str>)
        requires
            old(self).wf(),
            old(self)@.players.len() > 0,
            old(self)@.current_player_index < old(self)@.players.len(),
            money(old(self)@) <= usize::MAX,
        ensures
            final(self).wf(),
            money(final(self)@) == money(old(self)@),
            bet_progress(old(self)@, final(self)@, 1),
            forall|k: int| 0 <= k < old(self)@.players.len() ==> #[trigger] super::table::holdings(final(self)@, k)
                == super::table::holdings(old(self)@, k),
            super::table::bet_phase_played(super::table::bet_start(old(self)@, false), final(self)@, r, 1),
            final(self)@.current_player_index < final(self)@.players.len(),
    {
        self.play_bet_phase(1)
    }

    /// The second bet phase, after the flop.
    pub fn play_phase_two(&mut self) -> (r: Result<(), &'static str>)
        requires
            old(self).wf(),
            old(self)@.players.len() > 0,
            old(self)@.dealer_position < old(self)@.players.len(),
            money(old(self)@) <= usize::MAX,
        ensures
            final(self).wf(),
            money(final(self)@) == money(old(self)@),
            bet_progress(old(self)@, final(self)@, 2),
            forall|k: int| 0 <= k < old(self)@.players.len() ==> #[trigger] super::table::holdings(final(self)@, k)
                == super::table::holdings(old(self)@, k),
            super::table::bet_phase_played(super::table::bet_start(old(self)@, true), final(self)@, r, 2),
            final(self)@.current_player_index < final(self)@.players.len(),
    {
        self.play_bet_phase(2)
    }

    /// The third bet phase, after the turn card.
    pub fn play_phase_three(&mut self) -> (r: Result<(), &'static str>)
        requires
            old(self).wf(),
            old(self)@.players.len() > 0,
            old(self)@.dealer_position < old(self)@.players.len(),
            money(old(self)@) <= usize::MAX,
        ensures
            final(self).wf(),
            money(final(self)@) == money(old(self)@),
            bet_progress(old(self)@, final(self)@, 3),
            forall|k: int| 0 <= k < old(self)@.players.len() ==> #[trigger] super::table::holdings(final(self)@, k)
                == super::table::holdings(old(self)@, k),
            super::table::bet_phase_played(super::table::bet_start(old(self)@, true), final(self)@, r, 3),
            final(self)@.current_player_index < final(self)@.players.len(),
    {
        self.play_bet_phase(3)
    }

    /// The fourth bet phase, after the river card.
    pub fn play_phase_four(&mut self) -> (r: Result<(), &'static str>)
        requires
            old(self).wf(),
            old(self)@.players.len() > 0,
            old(self)@.dealer_position < old(self)@.players.len(),
            money(old(self)@) <= usize::MAX,
        ensures
            final(self).wf(),
            money(final(self)@) == money(old(self)@),
            bet_progress(old(self)@, final(self)@, 4),
            forall|k: int| 0 <= k < old(self)@.players.len() ==> #[trigger] super::table::holdings(final(self)@, k)
                == super::table::holdings(old(self)@, k),
            super::table::bet_phase_played(super::table::bet_start(old(self)@, true), final(self)@, r, 4),
            final(self)@.current_player_index < final(self)@.players.len(),
    {
        self.play_bet_phase(4)
    }

    /// Each player who has not folded is dealt one card face down. When the deck runs out,
    /// an error is returned.
    pub fn deal_down_cards(&mut self) -> (r: Result<(), String>)
        requires
            old(self).wf(),
        ensures
            final(self).wf(),
            r is Ok <==> old(self)@.deck.len() >= count_dealt_seats(old(self)@, old(self)@.players.len() as int, true),
            r is Ok ==> round_dealt(old(self)@, final(self)@, true, false),
            final(self)@ == (TableView { players: final(self)@.players, deck: final(self)@.deck, ..old(self)@ }),
            final(self)@.players.len() == old(self)@.players.len(),
            forall|k: int| 0 <= k < old(self)@.players.len() ==> #[trigger] final(self)@.players[k] == (PlayerView {
                cards: final(self)@.players[k].cards,
                ..old(self)@.players[k]
            }),
    {
        self.table.deal_round(true, false)
    }

    /// Each player who has not folded is dealt two cards face down, one round of dealing at a
    /// time. When the deck runs out, an error is returned.
    pub fn deal_initial_cards(&mut self) -> (r: Result<(), String>)
        requires
            old(self).wf(),
        ensures
            final(self).wf(),
            r is Ok <==> old(self)@.deck.len() >= 2 * count_dealt_seats(old(self)@, old(self)@.players.len() as int, true),
            final(self)@ == (TableView { players: final(self)@.players, deck: final(self)@.deck, ..old(self)@ }),
            final(self)@.players.len() == old(self)@.players.len(),
            forall|k: int| 0 <= k < old(self)@.players.len() ==> {
                let p0 = old(self)@.players[k];
                let p1 = #[trigger] final(self)@.players[k];
                &&& p1 == (PlayerView { cards: p1.cards, ..p0 })
                &&& (r is Ok && dealt_seat(old(self)@, k, true)) ==> p1.cards.len() == p0.cards.len() + 2
                    && p1.cards.subrange(0, p0.cards.len() as int) == p0.cards && !p1.cards[p0.cards.len() as int]@.face_up
                    && !p1.cards[p0.cards.len() + 1int]@.face_up
                &&& (r is Ok && !dealt_seat(old(self)@, k, true)) ==> p1 == p0
            },
    {
        let ghost t0 = self@;
        let first = self.deal_down_cards();
        let ghost t1 = self@;
        if let Err(e) = first {
            proof {
                assert(t0.deck.len() < count_dealt_seats(t0, t0.players.len() as int, true));
            }
            return Err(e);
        }
        proof {
            lemma_dealt_seats_same(t0, t1, t0.players.len() as int);
        }
        let second = self.deal_down_cards();
        proof {
            assert forall|k: int| 0 <= k < t0.players.len() implies #[trigger] self@.players[k] == (PlayerView {
                cards: self@.players[k].cards,
                ..t0.players[k]
            }) by {
                assert(t1.players[k] == (PlayerView { cards: t1.players[k].cards, ..t0.players[k] }));
            }
            if second is Ok {
                assert forall|k: int| 0 <= k < t0.players.len() && dealt_seat(t0, k, true) implies {
                    let p0 = t0.players[k];
                    let p1 = #[trigger] self@.players[k];
                    p1.cards.len() == p0.cards.len() + 2 && p1.cards.subrange(0, p0.cards.len() as int) == p0.cards
                        && !p1.cards[p0.cards.len() as int]@.face_up && !p1.cards[p0.cards.len() + 1int]@.face_up
                } by {
                    let p0 = t0.players[k];
                    let pm = t1.players[k];
                    let p1 = self@.players[k];
                    assert(dealt_seat(t1, k, true));
                    assert(pm.cards.drop_last() == p0.cards);
                    assert(p1.cards.drop_last() == pm.cards);
                    assert(p1.cards.subrange(0, p0.cards.len() as int) =~= p0.cards);
                    assert(p1.cards[p0.cards.len() as int] == pm.cards.last());
                }
                assert forall|k: int| 0 <= k < t0.players.len() && !dealt_seat(t0, k, true) implies #[trigger] self@.players[k]
                    == t0.players[k] by {
                    assert(!dealt_seat(t1, k, true));
                }
            }
        }
        second
    }

    /// How many players can still take bet actions: they have neither folded nor anything
    /// left to bet with.
    pub fn number_of_players_able_to_bet(&self) -> (n: usize)
        ensures
            n == able_to_bet(self@, self@.players.len() as int),
    {
        let players = self.table.players();
        let mut n: usize = 0;
        let mut k: usize = 0;
        while k < players.len()
            invariant
                k <= players@.len(),
                players@.map_values(|x: Player| x@) == self@.players,
                n == able_to_bet(self@, k as int),
                n <= k,
            decreases players@.len() - k,
        {
            assert(players@[k as int]@ == self@.players[k as int]);
            if !self.table.pot().player_has_folded(&players[k].account_id()) && players[k].balance() > 0 {
                n = n + 1;
            }
            k = k + 1;
        }
        n
    }

    /// Deals a community card face up, when at least two players can still take bet
    /// actions (have neither folded nor gone all in); otherwise nothing is dealt. When the
    /// deck is empty, an error is returned.
    pub fn deal_community_card(&mut self) -> (r: Result<(), String>)
        requires
            old(self).wf(),
            old(self)@.players.len() > 0,
        ensures
            final(self).wf(),
            ({
                let t = old(self)@;
                let skip = able_to_bet(t, t.players.len() as int) < 2;
                &&& skip ==> r is Ok && final(self)@ == t
                &&& !skip ==> (r is Err <==> t.deck.len() == 0)
                &&& r is Err ==> final(self)@ == t
                &&& (!skip && r is Ok) ==> {
                    &&& final(self)@ == (TableView { community: final(self)@.community, deck: final(self)@.deck, ..t })
                    &&& final(self)@.community.len() == t.community.len() + 1
                    &&& final(self)@.community.drop_last() == t.community
                    &&& final(self)@.community.last()@.face_up
                    &&& final(self)@.deck.len() + 1 == t.deck.len()
                }
            }),
    {
        let ghost t0 = self@;
        if self.number_of_players_able_to_bet() < 2 {
            return Ok(());
        }
        let r = self.table.deal_community_card(true);
        proof {
            if r is Ok {
                let c = choose|c: crate::card::Card| {
                    &&& crate::deck::dealt_from(t0.deck, c, self@.deck)
                    &&& self@.community.len() == t0.community.len() + 1
                    &&& self@.community.drop_last() == t0.community
                    &&& (#[trigger] self@.community.last())@ == (crate::card::CardView { face_up: true, ..c@ })
                };
            }
        }
        r
    }

    /// Deals the flop: three community cards face up, each unless fewer than two players can
    /// still take bet actions, in which case nothing is dealt. When the deck holds fewer than three cards, it is dealt out and an
    /// error is returned.
    pub fn deal_flop_cards(&mut self) -> (r: Result<(), String>)
        requires
            old(self).wf(),
            old(self)@.players.len() > 0,
        ensures
            final(self).wf(),
            final(self)@ == (TableView { community: final(self)@.community, deck: final(self)@.deck, ..old(self)@ }),
            ({
                let t = old(self)@;
                let f = final(self)@;
                let skip = able_to_bet(t, t.players.len() as int) < 2;
                let dealt: int = if r is Ok { 3 } else { t.deck.len() as int };
                &&& skip ==> r is Ok && f == t
                &&& !skip ==> (r is Ok <==> t.deck.len() >= 3)
                &&& !skip ==> {
                    &&& f.community.len() == t.community.len() + dealt
                    &&& f.community.subrange(0, t.community.len() as int) == t.community
                    &&& forall|k: int| t.community.len() <= k < f.community.len() ==> (#[trigger] f.community[k])@.face_up
                    &&& f.deck.len() + dealt == t.deck.len()
                }
            }),
    {
        let mut k: usize = 0;
        let ghost t0 = self@;
        let ghost skip = able_to_bet(t0, t0.players.len() as int) < 2;
        assert(t0.community.subrange(0, t0.community.len() as int) =~= t0.community);
        while k < 3
            invariant
                self.wf(),
                k <= 3,
                self@ == (TableView { community: self@.community, deck: self@.deck, ..t0 }),
                t0 == old(self)@,
                t0.players.len() > 0,
                skip == (able_to_bet(t0, t0.players.len() as int) < 2),
                skip ==> self@ == t0,
                !skip ==> {
                    &&& self@.community.len() == t0.community.len() + k
                    &&& self@.community.subrange(0, t0.community.len() as int) == t0.community
                    &&& forall|j: int| t0.community.len() <= j < self@.community.len() ==> (#[trigger] self@.community[j])@.face_up
                    &&& self@.deck.len() + k == t0.deck.len()
                },
            decreases 3 - k,
        {
            let ghost t1 = self@;
            let r = self.deal_community_card();
            if let Err(e) = r {
                return Err(e);
            }
            proof {
                lemma_able_to_bet_same(t0, t1, t0.players.len() as int);
                if !skip {
                    let c = self@.community;
                    assert(c.drop_last() == t1.community);
                    assert(c.subrange(0, t0.community.len() as int) =~= t1.community.subrange(0, t0.community.len() as int));
                    assert forall|j: int| t0.community.len() <= j < c.len() implies (#[trigger] c[j])@.face_up by {
                        if j < c.len() - 1 {
                            assert(c[j] == t1.community[j]);
                        }
                    }
                }
            }
            k = k + 1;
        }
        Ok(())
    }

    /// Takes back the community cards into the deck.
    pub fn return_community_cards(&mut self)
        requires
            old(self).wf(),
        ensures
            final(self).wf(),
            final(self)@ == (TableView { community: Seq::empty(), deck: final(self)@.deck, ..old(self)@ }),
            forall|r: Rank, su: Suit| #[trigger] count_card(final(self)@.deck, r, su)
                == count_card(old(self)@.deck, r, su) + count_card(old(self)@.community, r, su),
    {
        self.table.return_community_cards()
    }

    /// The community cards.
    pub fn community_cards(&self) -> (c: &Vec<crate::card::Card>)
        ensures
            c@ == self@.community,
    {
        self.table.community_cards()
    }

    /// Turns face up the cards of every player who has not folded.
    pub fn flip_non_folded_players_cards_up(&mut self)
        requires
            old(self).wf(),
        ensures
            final(self).wf(),
            final(self)@ == (TableView {
                players: super::table::flipped_players(old(self)@.players, old(self)@.pot.history),
                ..old(self)@
            }),
    {
        self.table.flip_non_folded_players_cards_up()
    }

    /// The showdown (see `Table::showdown`): each player who has not folded is ranked on
    /// their two cards together with the community cards.
    pub fn showdown(&mut self) -> (r: Result<(), &'static str>)
        requires
            old(self).wf(),
            old(self)@.players.len() > 0,
            old(self)@.current_player_index < old(self)@.players.len(),
            money(old(self)@) <= usize::MAX,
            old(self)@.pot.history.len() > 0 ==> old(self)@.pot.history.last().2 < usize::MAX,
        ensures
            final(self).wf(),
            ({
                let t = old(self)@;
                let h = t.pot.history;
                let tf = TableView { players: super::table::flipped_players(t.players, h), ..t };
                let w = crate::pot::spec_divide(t.pot, super::table::showdown_order(tf.players, h, tf.community));
                &&& r is Ok <==> super::table::showdown_ready(tf.players, h, tf.community)
                &&& r is Ok ==> balances(final(self)@.players) <= money(t)
                &&& r is Err ==> final(self)@ == tf
                &&& r matches Err(e) ==> showdown_error(e)
                &&& r is Ok ==> final(self)@ == (TableView {
                    players: super::table::paid_players(tf.players, w),
                    pot: crate::pot::PotView {
                        history: h + crate::pot::settlement_turns(t.pot.stakes, w, crate::pot::next_phase(h)),
                        stakes: t.pot.stakes,
                    },
                    ..tf
                })
            }),
    {
        self.table.showdown()
    }

    /// Takes back every player's cards into the deck.
    pub fn return_player_cards(&mut self)
        requires
            old(self).wf(),
        ensures
            final(self).wf(),
            final(self)@ == (TableView { players: final(self)@.players, deck: final(self)@.deck, ..old(self)@ }),
            final(self)@.players.len() == old(self)@.players.len(),
            forall|i: int| 0 <= i < old(self)@.players.len() ==> #[trigger] final(self)@.players[i] == (PlayerView {
                cards: Seq::empty(),
                ..old(self)@.players[i]
            }),
            forall|r: Rank, su: Suit| #[trigger] count_card(final(self)@.deck, r, su)
                == count_card(old(self)@.deck, r, su) + hand_count(old(self)@.players, r, su),
    {
        self.table.return_player_cards()
    }
}

impl<I: Input> TexasHoldem<I> {
    /// Ends a round that cannot go on: the cards go back to the deck and the players leave
    /// the table, given back with the reason.
    fn abort_round(&mut self, reason: &'static str) -> (r: (&'static str, Vec<Player>))
        requires
            old(self).wf(),
        ensures
            final(self).wf(),
            r.0 == reason,
            views(r.1@).len() == old(self)@.players.len(),
            forall|i: int| 0 <= i < old(self)@.players.len() ==> #[trigger] views(r.1@)[i]
                == (PlayerView { cards: Seq::empty(), ..old(self)@.players[i] }),
            final(self)@.players.len() == 0,
            final(self)@.community.len() == 0,
    {
        self.table.return_player_cards();
        self.table.return_community_cards();
        let ghost t1 = self@;
        let ps = self.table.take_players();
        (reason, ps)
    }
}

/// `b` is `a` after two cards were dealt face down to each player who has not folded, one
/// round of dealing at a time.
pub open spec fn dealt_two_down(a: TableView, b: TableView) -> bool {
    &&& b == (TableView { players: b.players, deck: b.deck, ..a })
    &&& b.players.len() == a.players.len()
    &&& forall|k: int| 0 <= k < a.players.len() ==> {
        let p0 = a.players[k];
        let p1 = #[trigger] b.players[k];
        &&& p1 == (PlayerView { cards: p1.cards, ..p0 })
        &&& dealt_seat(a, k, true) ==> p1.cards.len() == p0.cards.len() + 2 && p1.cards.subrange(0, p0.cards.len() as int)
            == p0.cards && !p1.cards[p0.cards.len() as int]@.face_up && !p1.cards[p0.cards.len() + 1int]@.face_up
        &&& !dealt_seat(a, k, true) ==> p1 == p0
    }
}

/// `b` is `a` after `n` community cards were dealt face up, or `a` itself when fewer than
/// two players can still take bet actions.
pub open spec fn community_dealt(a: TableView, b: TableView, n: nat) -> bool {
    if able_to_bet(a, a.players.len() as int) < 2 {
        b == a
    } else {
        &&& b == (TableView { community: b.community, deck: b.deck, ..a })
        &&& b.community.len() == a.community.len() + n
        &&& b.community.subrange(0, a.community.len() as int) == a.community
        &&& forall|k: int| a.community.len() <= k < b.community.len() ==> (#[trigger] b.community[k])@.face_up
        &&& b.deck.len() + n == a.deck.len()
    }
}

/// Community cards are wanted at `t` but the deck holds fewer than `n`.
pub open spec fn deck_short(t: TableView, n: nat) -> bool {
    able_to_bet(t, t.players.len() as int) >= 2 && t.deck.len() < n
}

/// A round of hold'em from the table `t`, where the players have just taken their seats (see
/// `round_start`), ends at the table `e` with the error `err`, if any: two cards are dealt
/// face down to each player (when the deck runs short the round ends, the players as they
/// were but for their cards), then come the blinds.
pub open spec fn texas_holdem_round(t: TableView, e: TableView, err: Option<&'static str>) -> bool {
    if t.deck.len() >= 2 * count_dealt_seats(t, t.players.len() as int, true) {
        exists|f: TableView| #[trigger] dealt_two_down(t, f) && texas_blinds_stage(f, e, err)
    } else {
        err == Some("There are no cards remaining in the deck, so no card can be dealt") && without_cards(e.players)
            == without_cards(t.players)
    }
}

/// The blinds of hold'em at `t`: when they are paid the first bet phase follows, otherwise
/// the round ends at `t` with the reason they were refused.
pub open spec fn texas_blinds_stage(t: TableView, e: TableView, err: Option<&'static str>) -> bool {
    if blinds_payable(t) {
        texas_first_bet_stage(after_blinds(t), e, err)
    } else {
        (err matches Some(x) && blind_error(x)) && e == t
    }
}

/// The first bet phase of hold'em from `t`, going on from the player after the blinds; when it fails, the round ends with its reason, else the flop follows.
pub open spec fn texas_first_bet_stage(t: TableView, e: TableView, err: Option<&'static str>) -> bool {
    exists|f: TableView, r: Result<(), &'static str>| {
        &&& #[trigger] bet_phase_played(bet_start(t, false), f, r, 1)
        &&& bet_progress(t, f, 1)
        &&& r matches Err(x) ==> err == Some(x) && e == f
        &&& r is Ok ==> texas_flop_stage(f, e, err)
    }
}

/// The flop at `t`: three community cards face up (none when fewer than two players can still bet), then the second bet phase; when the deck runs short, the round ends.
pub open spec fn texas_flop_stage(t: TableView, e: TableView, err: Option<&'static str>) -> bool {
    if deck_short(t, 3) {
        err == Some("There are no cards remaining in the deck, so no card can be dealt") && e.players == t.players
    } else {
        exists|f: TableView| #[trigger] community_dealt(t, f, 3) && texas_second_bet_stage(f, e, err)
    }
}

/// The second bet phase of hold'em from `t`, starting with the dealer's seat; the turn card follows.
pub open spec fn texas_second_bet_stage(t: TableView, e: TableView, err: Option<&'static str>) -> bool {
    exists|f: TableView, r: Result<(), &'static str>| {
        &&& #[trigger] bet_phase_played(bet_start(t, true), f, r, 2)
        &&& bet_progress(t, f, 2)
        &&& r matches Err(x) ==> err == Some(x) && e == f
        &&& r is Ok ==> texas_turn_stage(f, e, err)
    }
}

/// The turn at `t`: a fourth community card, then the third bet phase.
pub open spec fn texas_turn_stage(t: TableView, e: TableView, err: Option<&'static str>) -> bool {
    if deck_short(t, 1) {
        err == Some("There are no cards remaining in the deck, so no card can be dealt") && e.players == t.players
    } else {
        exists|f: TableView| #[trigger] community_dealt(t, f, 1) && texas_third_bet_stage(f, e, err)
    }
}

/// The third bet phase of hold'em from `t`, starting with the dealer's seat; the river card follows.
pub open spec fn texas_third_bet_stage(t: TableView, e: TableView, err: Option<&'static str>) -> bool {
    exists|f: TableView, r: Result<(), &'static str>| {
        &&& #[trigger] bet_phase_played(bet_start(t, true), f, r, 3)
        &&& bet_progress(t, f, 3)
        &&& r matches Err(x) ==> err == Some(x) && e == f
        &&& r is Ok ==> texas_river_stage(f, e, err)
    }
}

/// The river at `t`: a fifth community card, then the last bet phase.
pub open spec fn texas_river_stage(t: TableView, e: TableView, err: Option<&'static str>) -> bool {
    if deck_short(t, 1) {
        err == Some("There are no cards remaining in the deck, so no card can be dealt") && e.players == t.players
    } else {
        exists|f: TableView| #[trigger] community_dealt(t, f, 1) && texas_fourth_bet_stage(f, e, err)
    }
}

/// The last bet phase of hold'em from `t`, starting with the dealer's seat; the showdown follows.
pub open spec fn texas_fourth_bet_stage(t: TableView, e: TableView, err: Option<&'static str>) -> bool {
    exists|f: TableView, r: Result<(), &'static str>| {
        &&& #[trigger] bet_phase_played(bet_start(t, true), f, r, 4)
        &&& bet_progress(t, f, 4)
        &&& r matches Err(x) ==> err == Some(x) && e == f
        &&& r is Ok ==> showdown_ends(f, e, err)
    }
}

/// Dealing one community card as `deal_community_card` does is dealing one card face up.
pub proof fn lemma_one_card_dealt(a: TableView, b: TableView)
    requires
        able_to_bet(a, a.players.len() as int) < 2 ==> b == a,
        able_to_bet(a, a.players.len() as int) >= 2 ==> {
            &&& b == (TableView { community: b.community, deck: b.deck, ..a })
            &&& b.community.len() == a.community.len() + 1
            &&& b.community.drop_last() == a.community
            &&& b.community.last()@.face_up
            &&& b.deck.len() + 1 == a.deck.len()
        },
    ensures
        community_dealt(a, b, 1),
{
    if able_to_bet(a, a.players.len() as int) >= 2 {
        assert(b.community.subrange(0, a.community.len() as int) =~= b.community.drop_last());
        assert forall|k: int| a.community.len() <= k < b.community.len() implies (#[trigger] b.community[k])@.face_up by {
            assert(k == b.community.len() - 1);
        }
    }
}

impl<I: Input> TexasHoldem<I> {
    /// The first bet phase and what follows it, to the end of the round.
    fn play_first_bet(&mut self, Ghost(given): Ghost<Seq<PlayerView>>) -> (r: Result<(), &'static str>)
        requires
            old(self).wf(),
            in_round(given, old(self)@),
            old(self)@.current_player_index < old(self)@.players.len(),
        ensures
            final(self).wf(),
            texas_first_bet_stage(old(self)@, final(self)@, step_error(r)),
            same_accounts(given, final(self)@.players),
            balances(final(self)@.players) <= balances(given),
    {
        let ghost t = self@;
        let r = self.play_phase_one();
        let ghost f = self@;
        proof {
            lemma_bet_stage(given, t, f, 1);
            assert(bet_phase_played(bet_start(t, false), f, r, 1));
        }
        if let Err(x) = r {
            return Err(x);
        }
        self.play_flop(Ghost(given))
    }

    /// The flop and what follows it.
    fn play_flop(&mut self, Ghost(given): Ghost<Seq<PlayerView>>) -> (r: Result<(), &'static str>)
        requires
            old(self).wf(),
            in_round(given, old(self)@),
            old(self)@.current_player_index < old(self)@.players.len(),
        ensures
            final(self).wf(),
            texas_flop_stage(old(self)@, final(self)@, step_error(r)),
            same_accounts(given, final(self)@.players),
            balances(final(self)@.players) <= balances(given),
    {
        let ghost t = self@;
        let dealt = self.deal_flop_cards();
        let ghost f = self@;
        proof {
            lemma_community_stage(given, t, f);
        }
        if let Err(_) = dealt {
            return Err("There are no cards remaining in the deck, so no card can be dealt");
        }
        proof {
            
            assert(community_dealt(t, f, 3));
        }
        self.play_second_bet(Ghost(given))
    }

    /// The second bet phase and what follows it.
    fn play_second_bet(&mut self, Ghost(given): Ghost<Seq<PlayerView>>) -> (r: Result<(), &'static str>)
        requires
            old(self).wf(),
            in_round(given, old(self)@),
            old(self)@.current_player_index < old(self)@.players.len(),
        ensures
            final(self).wf(),
            texas_second_bet_stage(old(self)@, final(self)@, step_error(r)),
            same_accounts(given, final(self)@.players),
            balances(final(self)@.players) <= balances(given),
    {
        let ghost t = self@;
        let r = self.play_phase_two();
        let ghost f = self@;
        proof {
            lemma_bet_stage(given, t, f, 2);
            assert(bet_phase_played(bet_start(t, true), f, r, 2));
        }
        if let Err(x) = r {
            return Err(x);
        }
        self.play_turn(Ghost(given))
    }

    /// The turn card and what follows it.
    fn play_turn(&mut self, Ghost(given): Ghost<Seq<PlayerView>>) -> (r: Result<(), &'static str>)
        requires
            old(self).wf(),
            in_round(given, old(self)@),
            old(self)@.current_player_index < old(self)@.players.len(),
        ensures
            final(self).wf(),
            texas_turn_stage(old(self)@, final(self)@, step_error(r)),
            same_accounts(given, final(self)@.players),
            balances(final(self)@.players) <= balances(given),
    {
        let ghost t = self@;
        let dealt = self.deal_community_card();
        let ghost f = self@;
        proof {
            lemma_community_stage(given, t, f);
        }
        if let Err(_) = dealt {
            return Err("There are no cards remaining in the deck, so no card can be dealt");
        }
        proof {
            lemma_one_card_dealt(t, f);
            assert(community_dealt(t, f, 1));
        }
        self.play_third_bet(Ghost(given))
    }

    /// The third bet phase and what follows it.
    fn play_third_bet(&mut self, Ghost(given): Ghost<Seq<PlayerView>>) -> (r: Result<(), &'static str>)
        requires
            old(self).wf(),
            in_round(given, old(self)@),
            old(self)@.current_player_index < old(self)@.players.len(),
        ensures
            final(self).wf(),
            texas_third_bet_stage(old(self)@, final(self)@, step_error(r)),
            same_accounts(given, final(self)@.players),
            balances(final(self)@.players) <= balances(given),
    {
        let ghost t = self@;
        let r = self.play_phase_three();
        let ghost f = self@;
        proof {
            lemma_bet_stage(given, t, f, 3);
            assert(bet_phase_played(bet_start(t, true), f, r, 3));
        }
        if let Err(x) = r {
            return Err(x);
        }
        self.play_river(Ghost(given))
    }

    /// The river card and what follows it.
    fn play_river(&mut self, Ghost(given): Ghost<Seq<PlayerView>>) -> (r: Result<(), &'static str>)
        requires
            old(self).wf(),
            in_round(given, old(self)@),
            old(self)@.current_player_index < old(self)@.players.len(),
        ensures
            final(self).wf(),
            texas_river_stage(old(self)@, final(self)@, step_error(r)),
            same_accounts(given, final(self)@.players),
            balances(final(self)@.players) <= balances(given),
    {
        let ghost t = self@;
        let dealt = self.deal_community_card();
        let ghost f = self@;
        proof {
            lemma_community_stage(given, t, f);
        }
        if let Err(_) = dealt {
            return Err("There are no cards remaining in the deck, so no card can be dealt");
        }
        proof {
            lemma_one_card_dealt(t, f);
            assert(community_dealt(t, f, 1));
        }
        self.play_fourth_bet(Ghost(given))
    }

    /// The last bet phase and the showdown.
    fn play_fourth_bet(&mut self, Ghost(given): Ghost<Seq<PlayerView>>) -> (r: Result<(), &'static str>)
        requires
            old(self).wf(),
            in_round(given, old(self)@),
            old(self)@.current_player_index < old(self)@.players.len(),
        ensures
            final(self).wf(),
            texas_fourth_bet_stage(old(self)@, final(self)@, step_error(r)),
            same_accounts(given, final(self)@.players),
            balances(final(self)@.players) <= balances(given),
    {
        let ghost t = self@;
        let r = self.play_phase_four();
        let ghost f = self@;
        proof {
            lemma_bet_stage(given, t, f, 4);
            assert(bet_phase_played(bet_start(t, true), f, r, 4));
        }
        if let Err(x) = r {
            return Err(x);
        }
        proof {
            assert(f.pot.history.len() > 0 ==> f.pot.history.last().2 <= 5) by {
                if f.pot.history.len() > 0 {
                    assert(f.pot.history.last() == f.pot.history[f.pot.history.len() - 1]);
                }
            }
        }
        let res = self.showdown();
        proof {
            lemma_showdown_stage(given, f, self@, res is Ok);
            assert(showdown_ends(f, self@, step_error(res)));
        }
        res
    }

}

impl<I: Input> Rules for TexasHoldem<I> {
    open spec fn wf(&self) -> bool {
        super::table::seated(self@)
    }

    /// A round of hold'em is refused, the game unchanged and the players given back as they
    /// came, when `round_refusal` says so; otherwise it is played as `texas_holdem_round`
    /// says from the table where the players took their seats, and the players leave the
    /// table, the community cards taken back.
    open spec fn round_played(
        before: Self,
        after: Self,
        given: Seq<PlayerView>,
        back: Seq<PlayerView>,
        err: Option<&'static str>,
    ) -> bool {
        match round_refusal(before@, given, 23, "Cannot start a game with more than 23 players, as the deck may run out of cards") {
            Some(reason) => err == Some(reason) && back == given && after@ == before@,
            None => {
                &&& after@.players.len() == 0
                &&& after@.community.len() == 0
                &&& players_back(given, back)
                &&& exists|e: TableView| #[trigger] texas_holdem_round(round_start(before@, given), e, err)
                    && back == without_cards(e.players)
            },
        }
    }

    /// A new game of Texas hold'em: no players yet, a full deck, an empty pot.
    fn new(raise_limit: u32, minimum_bet: u32, game_id: u128) -> (r: TexasHoldem<I>)
        ensures
            r.wf(),
            r@.players.len() == 0,
            r@.deck.len() == 52,
            r@.dealer_position == 0,
            r@.current_player_index == 0,
            r@.raise_limit == raise_limit,
            r@.big_blind_amount == minimum_bet,
            r@.pot.history.len() == 0,
            r@.pot.stakes.len() == 0,
            r@.community.len() == 0,
            r.game() == game_id,
    {
        TexasHoldem { table: Table::new(raise_limit, minimum_bet), game_id }
    }

    /// Plays a whole round of hold'em: the dealer moves on, two cards are dealt face down to
    /// each player, the blinds are paid, and the four bet phases are played with the flop,
    /// the turn and the river dealt between them; the pot is divided at the showdown. The
    /// cards go back to the deck and the players are given back.
    ///
    /// A round is refused, with the players given back unchanged, when `round_refusal` says
    /// so (fewer than 2 or more than 23 players among others). Otherwise, the players are
    /// given back with their accounts, names and no cards, and never with more money in all
    /// than they brought; when a phase fails (an answer missing or not allowed), the reason
    /// is given with them.
    fn play_round(&mut self, players: Vec<Player>) -> (r: Result<Vec<Player>, (&'static str, Vec<Player>)>)
        ensures
            final(self).wf(),
            ({
                let given = players@.map_values(|p: Player| p@);
                let refusal = round_refusal(
                    old(self)@,
                    given,
                    23,
                    "Cannot start a game with more than 23 players, as the deck may run out of cards",
                );
                &&& refusal matches Some(reason) ==> r == Err::<Vec<Player>, (&'static str, Vec<Player>)>((reason, players))
                    && final(self)@ == old(self)@
                &&& refusal is None ==> {
                    &&& players_back(given, players_given_back(r))
                    &&& final(self)@.players.len() == 0
                }
            }),
    {
        let ghost given = players@.map_values(|p: Player| p@);
        if players.len() < 2 {
            return Err(("Cannot start a game with less than 2 players", players));
        }
        if players.len() > 23 {
            return Err(("Cannot start a game with more than 23 players, as the deck may run out of cards", players));
        }
        if balances_overflow(&players) {
            return Err(("The players' balances are too large", players));
        }
        let seated = self.table.players();
        if self.table.deck().size() != 52 || self.table.community_cards().len() != 0 || holds_cards(seated) {
            proof {
                if exists|i: int| 0 <= i < seated@.len() && (#[trigger] seated@[i])@.cards.len() > 0 {
                    let i = choose|i: int| 0 <= i < seated@.len() && (#[trigger] seated@[i])@.cards.len() > 0;
                    assert(old(self)@.players[i] == seated@[i]@);
                }
                assert forall|i: int| 0 <= i < players@.len() implies (#[trigger] given[i]).cards.len() == 0 by {
                    assert(given[i] == players@[i]@);
                    assert(!(players@[i]@.cards.len() > 0));
                }
            }
            return Err(("The deck must be complete when a round starts", players));
        }
        proof {
            assert forall|i: int| 0 <= i < players@.len() implies (#[trigger] players@[i])@.cards.len() == 0 by {
                assert(given[i] == players@[i]@);
            }
            assert forall|i: int| 0 <= i < old(self)@.players.len() implies (#[trigger] old(self)@.players[i]).cards.len() == 0 by {
                assert(old(self)@.players[i] == seated@[i]@);
                assert(!(seated@[i]@.cards.len() > 0));
            }
        }
        let _ = self.table.seat_players(players);
        let ghost t0 = self@;
        proof {
            crate::pot::lemma_zero_stakes(player_ids(given));
            lemma_balances_same(given, t0.players);
        }
        self.table.increment_dealer_position();
        self.table.reset_turn_to_dealer();
        let ghost t1 = self@;
        proof {
            lemma_balances_same(t0.players, t1.players);
            assert(same_accounts(given, t1.players));
            assert(t1 == round_start(old(self)@, given));
        }
        match self.deal_initial_cards() {
            Ok(()) => {},
            Err(_) => {
                let ghost ta = self@;
                proof {
                    lemma_balances_same(t1.players, ta.players);
                    lemma_without_cards_same(t1.players, ta.players);
                }
                let r = self.abort_round("There are no cards remaining in the deck, so no card can be dealt");
                proof {
                    let back = r.1@.map_values(|p: Player| p@);
                    lemma_back_after_abort(given, ta.players, back);
                    assert(texas_holdem_round(t1, ta, Some(r.0)));
                }
                return Err(r);
            },
        }
        let ghost t2 = self@;
        proof {
            lemma_balances_same(t1.players, t2.players);
            assert forall|i: int| 0 <= i < t2.pot.stakes.len() implies (#[trigger] t2.pot.stakes[i]).1 == 0 by {
                assert(t2.pot.stakes == zero_stakes(player_ids(given)));
            }
            assert(dealt_two_down(t1, t2));
        }
        match self.table.play_blinds() {
            Ok(()) => {},
            Err(e) => {
                let r = self.abort_round(e);
                proof {
                    lemma_back_after_abort(given, t2.players, r.1@.map_values(|p: Player| p@));
                    assert(texas_blinds_stage(t2, t2, Some(e)));
                    assert(texas_holdem_round(t1, t2, Some(e)));
                }
                return Err(r);
            },
        }
        proof {
            lemma_blinds_stage(given, t2, self@);
        }
        let played = self.play_first_bet(Ghost(given));
        let ghost e = self@;
        proof {
            assert(texas_blinds_stage(t2, e, step_error(played)));
            assert(texas_holdem_round(t1, e, step_error(played)));
        }
        if let Err(x) = played {
            let r = self.abort_round(x);
            proof {
                lemma_back_after_abort(given, e.players, r.1@.map_values(|p: Player| p@));
            }
            return Err(r);
        }
        self.table.return_player_cards();
        self.table.return_community_cards();
        let ps = self.table.take_players();
        proof {
            lemma_back_after_abort(given, e.players, ps@.map_values(|p: Player| p@));
        }
        Ok(ps)
    }

    /// The pot of the last round.
    fn pot(&self) -> (p: &Pot)
        ensures
            p@ == self@.pot,
    {
        self.table.pot()
    }

    /// The ID of the game.
    fn game_id(&self) -> (id: u128)
        ensures
            id == self.game(),
    {
        self.game_id
    }
}

} // verus!
