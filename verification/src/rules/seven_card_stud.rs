use vstd::prelude::*;

use crate::action::Action;
use crate::card::{Card, CardView, Rank, Suit};
use crate::deck::{Deck, count_card};
use crate::hand_rank::{Hand, HandRank, hand_rank_order, rank_hand_defined, spec_rank_hand};
use crate::input::Input;
use crate::player::{Player, PlayerView};
use crate::pot::{Pot, folded_in, zero_stakes};
use super::Rules;
use super::table::{
    Table, TableView, views, player_ids, balances, money, after_turn, blind_payable, next_seat,
    bet_phase_played, bet_progress, hand_count, lemma_balances_same, count_dealt_seats, dealt_seat, round_dealt, seat_stake,
};
use super::round::{
    without_cards, round_start, blind_error, lemma_without_cards_same, showdown_ends, step_error,
    players_back, round_refusal, players_given_back, same_accounts, in_round, players_ready, holds_cards,
    balances_overflow, lemma_back_after_abort, lemma_bet_stage, lemma_deal_stage, lemma_showdown_stage,
    lemma_dealt_seats_same,
};

verus! {

// ---------------------------------------------------------------------------
// Up cards
// ---------------------------------------------------------------------------

/// The card at `j` is the only card of `s` that lies face up.
pub open spec fn up_card_at(s: Seq<Card>, j: int) -> bool {
    &&& 0 <= j < s.len()
    &&& s[j]@.face_up
    &&& forall|k: int| 0 <= k < s.len() && k != j ==> !(#[trigger] s[k])@.face_up
}

/// Exactly one card of `s` lies face up.
pub open spec fn one_up_card(s: Seq<Card>) -> bool {
    exists|j: int| up_card_at(s, j)
}

/// The card of `s` that lies face up, when exactly one does.
pub open spec fn the_up_card(s: Seq<Card>) -> Card {
    s[choose|j: int| up_card_at(s, j)]
}

/// The rank value of the player's up card.
pub open spec fn up_rank(p: PlayerView) -> int {
    the_up_card(p.cards)@.rank.value()
}

/// The seat, among the first `n`, whose up card ranks lowest; on equal ranks, the first.
pub open spec fn lowest_up_seat(ps: Seq<PlayerView>, n: int) -> int
    decreases n,
{
    if n <= 1 {
        0
    } else {
        let b = lowest_up_seat(ps, n - 1);
        if up_rank(ps[n - 1]) < up_rank(ps[b]) {
            n - 1
        } else {
            b
        }
    }
}

/// The cards of `s` that lie face up, in order.
pub open spec fn up_cards(s: Seq<Card>) -> Seq<Card>
    decreases s.len(),
{
    if s.len() == 0 {
        s
    } else {
        let r = up_cards(s.drop_last());
        if s.last()@.face_up {
            r.push(s.last())
        } else {
            r
        }
    }
}

/// The player in seat `k` has not folded.
pub open spec fn in_hand(t: TableView, k: int) -> bool {
    !folded_in(t.pot.history, t.players[k].account_id)
}

/// Some player at the table has not folded.
pub open spec fn someone_in_hand(t: TableView) -> bool {
    exists|k: int| 0 <= k < t.players.len() && in_hand(t, k)
}

/// The up cards of every player who has not folded make a hand that can be ranked.
pub open spec fn up_hands_rankable(t: TableView) -> bool {
    forall|k: int| 0 <= k < t.players.len() && in_hand(t, k) ==> rank_hand_defined(up_cards(#[trigger] t.players[k].cards))
}

/// The hand of the up cards of `a` ranks above that of `b`.
pub open spec fn up_hand_beats(a: Seq<Card>, b: Seq<Card>) -> bool {
    hand_rank_order(spec_rank_hand(up_cards(a)), spec_rank_hand(up_cards(b))) > 0
}

/// The seat, among the first `n`, of the player who has not folded and whose up cards make
/// the best hand; on equal hands, the first. `None` when all of them folded.
pub open spec fn best_up_upto(t: TableView, n: int) -> Option<int>
    decreases n,
{
    if n <= 0 {
        None
    } else {
        let prev = best_up_upto(t, n - 1);
        if !in_hand(t, n - 1) {
            prev
        } else {
            match prev {
                None => Some(n - 1),
                Some(b) => if up_hand_beats(t.players[n - 1].cards, t.players[b].cards) {
                    Some(n - 1)
                } else {
                    prev
                },
            }
        }
    }
}

/// The seat of the player who has not folded and whose up cards make the best hand.
pub open spec fn best_up_seat(t: TableView) -> int {
    match best_up_upto(t, t.players.len() as int) {
        Some(b) => b,
        None => 0,
    }
}

/// The seat found among the first `n` is one of them and has not folded.
proof fn lemma_best_up_upto(t: TableView, n: int)
    requires
        0 <= n <= t.players.len(),
    ensures
        best_up_upto(t, n) matches Some(b) ==> 0 <= b < n && in_hand(t, b),
        (exists|k: int| 0 <= k < n && in_hand(t, k)) ==> best_up_upto(t, n) is Some,
    decreases n,
{
    if n > 0 {
        lemma_best_up_upto(t, n - 1);
        if exists|k: int| 0 <= k < n && in_hand(t, k) {
            let k = choose|k: int| 0 <= k < n && in_hand(t, k);
            if k < n - 1 {
                assert(exists|k: int| 0 <= k < n - 1 && in_hand(t, k));
            }
        }
    }
}

/// The seat with the lowest up card is a seat.
proof fn lemma_lowest_up_seat(ps: Seq<PlayerView>, n: int)
    requires
        1 <= n,
    ensures
        0 <= lowest_up_seat(ps, n) < n,
    decreases n,
{
    if n > 1 {
        lemma_lowest_up_seat(ps, n - 1);
    }
}

/// The cards of `cards` that lie face up, in order.
pub fn up_cards_of(cards: &Vec<Card>) -> (u: Vec<Card>)
    ensures
        u@ == up_cards(cards@),
{
    let mut u: Vec<Card> = Vec::new();
    let mut i: usize = 0;
    assert(cards@.subrange(0, 0) =~= Seq::<Card>::empty());
    while i < cards.len()
        invariant
            i <= cards@.len(),
            u@ == up_cards(cards@.subrange(0, i as int)),
        decreases cards@.len() - i,
    {
        let ghost s = cards@.subrange(0, i + 1);
        assert(s.drop_last() =~= cards@.subrange(0, i as int));
        assert(s.last() == cards@[i as int]);
        if cards[i].is_face_up() {
            u.push(cards[i]);
        }
        i = i + 1;
    }
    assert(cards@.subrange(0, cards@.len() as int) =~= cards@);
    u
}

/// The card of `cards` that lies face up, when exactly one does.
pub fn up_card_of(cards: &Vec<Card>) -> (c: Card)
    requires
        one_up_card(cards@),
    ensures
        c == the_up_card(cards@),
{
    let ghost s = cards@;
    let ghost j0 = choose|j: int| up_card_at(s, j);
    let mut j: usize = 0;
    while j < cards.len()
        invariant
            j <= s.len(),
            s == cards@,
            up_card_at(s, j0),
            j <= j0,
        decreases s.len() - j,
    {
        if cards[j].is_face_up() {
            assert(j == j0) by {
                if j != j0 {
                    assert(!s[j as int]@.face_up);
                }
            }
            return cards[j];
        }
        assert(j != j0);
        j = j + 1;
    }
    assert(false);
    cards[0]
}

// ---------------------------------------------------------------------------
// The game
// ---------------------------------------------------------------------------

/// Seven card stud: every player is dealt two cards face down and one face up; the player
/// whose up card ranks lowest pays the bring-in, and a bet phase follows. Three more cards
/// are dealt face up and a last one face down, each followed by a bet phase that starts with
/// the player whose up cards make the best hand; then the showdown.
///
/// The table keeps the players, the deck, the dealer's and the current player's seats, the
/// raise limit, the bring-in (kept where the other variants keep the big blind), how
/// players are asked for their choices, and the pot.
pub struct SevenCardStud<I: Input> {
    table: Table<I>,
    game_id: u128,
}

impl<I: Input> View for SevenCardStud<I> {
    type V = TableView;

    closed spec fn view(&self) -> TableView {
        self.table@
    }
}

impl<I: Input> SevenCardStud<I> {
    /// The ID of the game, as a value.
    pub closed spec fn game(&self) -> u128 {
        self.game_id
    }

    /// The players, in seat order.
    pub fn players(&self) -> (p: &Vec<Player>)
        ensures
            p@.map_values(|x: Player| x@) == self@.players,
    {
        self.table.players()
    }

    /// The deck.
    pub fn deck(&self) -> (d: &Deck)
        ensures
            d@ == self@.deck,
    {
        self.table.deck()
    }

    /// The handler that players' choices are asked of and the table is shown through.
    pub closed spec fn handler(&self) -> I {
        self.table.handler()
    }

    /// The input handler, to be changed in place: what it becomes is the game's handler,
    /// and nothing else in the game changes.
    pub fn input_mut(&mut self) -> (i: &mut I)
        ensures
            *i == old(self).handler(),
            final(self).handler() == *final(i),
            final(self)@ == old(self)@,
    {
        self.table.input_mut()
    }

    /// The dealer's seat.
    pub fn dealer_position(&self) -> (d: usize)
        ensures
            d == self@.dealer_position,
    {
        self.table.dealer_position()
    }

    /// The seat of the player to act.
    pub fn current_player_index(&self) -> (c: usize)
        ensures
            c == self@.current_player_index,
    {
        self.table.current_player_index()
    }

    /// Seats the players, who hold no cards, and clears the pot for them.
    pub fn set_players(&mut self, players: Vec<Player>)
        requires
            old(self).wf(),
            player_ids(players@.map_values(|p: Player| p@)).no_duplicates(),
            players@.len() < u32::MAX,
            forall|i: int| 0 <= i < players@.len() ==> (#[trigger] players@[i])@.cards.len() == 0,
            forall|i: int| 0 <= i < old(self)@.players.len() ==> (#[trigger] old(self)@.players[i]).cards.len() == 0,
        ensures
            final(self).wf(),
            final(self)@ == (TableView {
                players: players@.map_values(|p: Player| p@),
                pot: crate::pot::PotView {
                    history: Seq::empty(),
                    stakes: zero_stakes(player_ids(players@.map_values(|p: Player| p@))),
                },
                ..old(self)@
            }),
    {
        let _ = self.table.seat_players(players);
    }

    /// Moves the dealer to the next seat, back to the first after the last.
    pub fn increment_dealer_position(&mut self)
        requires
            old(self).wf(),
        ensures
            final(self).wf(),
            final(self)@ == (TableView {
                dealer_position: if old(self)@.dealer_position + 1 >= old(self)@.players.len() {
                    0
                } else {
                    (old(self)@.dealer_position + 1) as usize
                },
                ..old(self)@
            }),
    {
        self.table.increment_dealer_position()
    }

    /// Moves the turn to the next seat, back to the first after the last.
    pub fn increment_player_index(&mut self)
        requires
            old(self).wf(),
            old(self)@.current_player_index < usize::MAX,
        ensures
            final(self).wf(),
            final(self)@ == (TableView {
                current_player_index: if old(self)@.current_player_index + 1 == old(self)@.players.len() {
                    0
                } else {
                    (old(self)@.current_player_index + 1) as usize
                },
                ..old(self)@
            }),
    {
        self.table.increment_player_index()
    }

    /// Hands the card of the rank and suit of `card` from the deck to the player in seat
    /// `i`, face up or down (see `Table::deal_card_to_player`).
    pub fn deal_card_to_player(&mut self, i: usize, card: &Card, face_up: bool) -> (r: Result<(), String>)
        requires
            old(self).wf(),
            i < old(self)@.players.len(),
        ensures
            final(self).wf(),
            r is Ok <==> crate::deck::holds_card(old(self)@.deck, card@),
            r is Err ==> final(self)@ == old(self)@,
            r is Ok ==> super::table::dealt_to_player(old(self)@, final(self)@, i as int, face_up) && final(self)@
                == (TableView { players: final(self)@.players, deck: final(self)@.deck, ..old(self)@ }),
            r is Ok ==> final(self)@.players[i as int].cards.last()@ == (CardView { face_up, ..card@ }),
    {
        self.table.deal_card_to_player(i, card, face_up)
    }

    /// The player whose up card ranks lowest (the first of them, on equal ranks) pays the
    /// bring-in, and betting goes on with the next seat. When the bring-in would not raise
    /// the player's stake, or the player cannot pay it, nothing is played and an error is
    /// returned.
    pub fn play_bring_in(&mut self) -> (r: Result<(), &'static str>)
        requires
            old(self).wf(),
            old(self)@.players.len() > 0,
            forall|k: int| 0 <= k < old(self)@.players.len() ==> one_up_card(#[trigger] old(self)@.players[k].cards),
        ensures
            final(self).wf(),
            ({
                let t = old(self)@;
                let b = lowest_up_seat(t.players, t.players.len() as int);
                let amount = t.big_blind_amount as usize;
                &&& r is Ok <==> blind_payable(t, b, amount as nat)
                &&& r is Ok ==> final(self)@ == (TableView {
                    current_player_index: next_seat(b as usize, t.players.len()),
                    ..after_turn(t, b, Action::Ante(amount), 0, amount as nat)
                })
                &&& r is Err ==> final(self)@ == t
                &&& r matches Err(e) ==> blind_error(e)
                &&& (r is Ok && seat_stake(t, b) == 0) ==> money(final(self)@) == money(t)
            }),
    {
        let ghost t0 = self@;
        let n = self.table.players().len();
        let ghost ps = t0.players;
        let players0 = self.table.players();
        assert(players0@[0]@ == ps[0]);
        let mut low: usize = 0;
        let mut low_rank: u8 = up_card_of(players0[0].cards()).rank().to_u8();
        let mut k: usize = 1;
        while k < n
            invariant
                self@ == t0,
                ps == t0.players,
                n == ps.len(),
                1 <= k <= n,
                low == lowest_up_seat(ps, k as int),
                low_rank as int == up_rank(ps[low as int]),
                forall|j: int| 0 <= j < n ==> one_up_card(#[trigger] ps[j].cards),
            decreases n - k,
        {
            let players = self.table.players();
            assert(players@[k as int]@ == ps[k as int]);
            let rank = up_card_of(players[k].cards()).rank().to_u8();
            if rank < low_rank {
                low = k;
                low_rank = rank;
            }
            k = k + 1;
        }
        proof {
            lemma_lowest_up_seat(ps, n as int);
        }
        let amount: usize = self.table.big_blind_amount() as usize;
        match self.table.play_ante(low, amount) {
            Ok(()) => {},
            Err(e) => {
                return Err(e);
            },
        }
        self.table.set_current_player(low);
        self.table.increment_player_index();
        Ok(())
    }

    /// The seat of the player who has not folded and whose up cards make the best hand (the
    /// first of them, on equal hands).
    pub fn find_player_with_best_up_card_hand(&self) -> (b: usize)
        requires
            someone_in_hand(self@),
            up_hands_rankable(self@),
        ensures
            best_up_upto(self@, self@.players.len() as int) == Some(b as int),
    {
        let ghost t = self@;
        let players = self.table.players();
        let n = players.len();
        let mut best: usize = 0;
        let mut best_rank: Option<HandRank> = None;
        let mut k: usize = 0;
        while k < n
            invariant
                t == self@,
                players@.map_values(|x: Player| x@) == t.players,
                n == t.players.len(),
                k <= n,
                up_hands_rankable(t),
                match best_up_upto(t, k as int) {
                    None => best_rank is None,
                    Some(b) => b == best && (best_rank matches Some(h) && h@ == spec_rank_hand(up_cards(t.players[b].cards))),
                },
            decreases n - k,
        {
            assert(players@[k as int]@ == t.players[k as int]);
            let id = players[k].account_id();
            if !self.table.pot().player_has_folded(&id) {
                let up = up_cards_of(players[k].cards());
                let h = Hand::rank_hand(up.as_slice());
                match &best_rank {
                    None => {
                        best = k;
                        best_rank = Some(h);
                    },
                    Some(b) => {
                        if h.compare(b) > 0 {
                            best = k;
                            best_rank = Some(h);
                        }
                    },
                }
            }
            k = k + 1;
        }
        proof {
            lemma_best_up_upto(t, n as int);
        }
        best
    }
}

impl<I: Input> SevenCardStud<I> {
    /// Each player who has not folded is dealt one card face up. When the deck runs out, an
    /// error is returned.
    pub fn deal_up_cards(&mut self) -> (r: Result<(), String>)
        requires
            old(self).wf(),
        ensures
            final(self).wf(),
            r is Ok <==> old(self)@.deck.len() >= count_dealt_seats(old(self)@, old(self)@.players.len() as int, true),
            r is Ok ==> round_dealt(old(self)@, final(self)@, true, true),
            final(self)@ == (TableView { players: final(self)@.players, deck: final(self)@.deck, ..old(self)@ }),
            final(self)@.players.len() == old(self)@.players.len(),
            forall|k: int| 0 <= k < old(self)@.players.len() ==> #[trigger] final(self)@.players[k] == (PlayerView {
                cards: final(self)@.players[k].cards,
                ..old(self)@.players[k]
            }),
    {
        self.table.deal_round(true, true)
    }

    /// Each player who has not folded is dealt one card face down. When the deck runs out, an
    /// error is returned.
    pub fn deal_down_cards(&mut self) -> (r: Result<(), String>)
        requires
            old(self).wf(),
        ensures
            final(self).wf(),
            r is Ok <==> old(self)@.deck.len() >= count_dealt_seats(old(self)@, old(self)@.players.len() as int, true),
            r is Ok ==> round_dealt(old(self)@, final(self)@, true, false),
            final(self)@ == (TableView { players: final(self)@.players, deck: final(self)@.deck, ..old(self)@ }),
            final(self)@.players.len() == old(self)@.players.len(),
            forall|k: int| 0 <= k < old(self)@.players.len() ==> #[trigger] final(self)@.players[k] == (PlayerView {
                cards: final(self)@.players[k].cards,
                ..old(self)@.players[k]
            }),
    {
        self.table.deal_round(true, false)
    }

    /// Each player who has not folded is dealt two cards face down and one face up, one round
    /// of dealing at a time. When the deck runs out, an error is returned.
    pub fn deal_initial_cards(&mut self) -> (r: Result<(), String>)
        requires
            old(self).wf(),
        ensures
            final(self).wf(),
            r is Ok <==> old(self)@.deck.len() >= 3 * count_dealt_seats(old(self)@, old(self)@.players.len() as int, true),
            final(self)@ == (TableView { players: final(self)@.players, deck: final(self)@.deck, ..old(self)@ }),
            final(self)@.players.len() == old(self)@.players.len(),
            forall|k: int| 0 <= k < old(self)@.players.len() ==> {
                let p0 = old(self)@.players[k];
                let p1 = #[trigger] final(self)@.players[k];
                let l = p0.cards.len() as int;
                &&& p1 == (PlayerView { cards: p1.cards, ..p0 })
                &&& (r is Ok && dealt_seat(old(self)@, k, true)) ==> p1.cards.len() == l + 3
                    && p1.cards.subrange(0, l) == p0.cards && !p1.cards[l]@.face_up && !p1.cards[l + 1]@.face_up
                    && p1.cards[l + 2]@.face_up
                &&& (r is Ok && !dealt_seat(old(self)@, k, true)) ==> p1 == p0
            },
    {
        let ghost t0 = self@;
        let first = self.deal_down_cards();
        let ghost t1 = self@;
        if let Err(e) = first {
            return Err(e);
        }
        proof {
            lemma_dealt_seats_same(t0, t1, t0.players.len() as int);
        }
        let second = self.deal_down_cards();
        let ghost t2 = self@;
        if let Err(e) = second {
            proof {
                assert forall|k: int| 0 <= k < t0.players.len() implies #[trigger] self@.players[k] == (PlayerView {
                    cards: self@.players[k].cards,
                    ..t0.players[k]
                }) by {
                    assert(t1.players[k] == (PlayerView { cards: t1.players[k].cards, ..t0.players[k] }));
                }
            }
            return Err(e);
        }
        proof {
            lemma_dealt_seats_same(t0, t2, t0.players.len() as int);
        }
        let third = self.deal_up_cards();
        proof {
            assert forall|k: int| 0 <= k < t0.players.len() implies #[trigger] self@.players[k] == (PlayerView {
                cards: self@.players[k].cards,
                ..t0.players[k]
            }) by {
                assert(t1.players[k] == (PlayerView { cards: t1.players[k].cards, ..t0.players[k] }));
                assert(t2.players[k] == (PlayerView { cards: t2.players[k].cards, ..t1.players[k] }));
            }
            if third is Ok {
                assert forall|k: int| 0 <= k < t0.players.len() && dealt_seat(t0, k, true) implies {
                    let p0 = t0.players[k];
                    let p1 = #[trigger] self@.players[k];
                    let l = p0.cards.len() as int;
                    p1.cards.len() == l + 3 && p1.cards.subrange(0, l) == p0.cards && !p1.cards[l]@.face_up
                        && !p1.cards[l + 1]@.face_up && p1.cards[l + 2]@.face_up
                } by {
                    let p0 = t0.players[k];
                    let pa = t1.players[k];
                    let pb = t2.players[k];
                    let p1 = self@.players[k];
                    let l = p0.cards.len() as int;
                    assert(dealt_seat(t1, k, true));
                    assert(dealt_seat(t2, k, true));
                    assert(pa.cards.drop_last() == p0.cards);
                    assert(pb.cards.drop_last() == pa.cards);
                    assert(p1.cards.drop_last() == pb.cards);
                    assert(p1.cards.subrange(0, l) =~= p0.cards);
                    assert(p1.cards[l] == pa.cards.last());
                    assert(p1.cards[l + 1] == pb.cards.last());
                }
                assert forall|k: int| 0 <= k < t0.players.len() && !dealt_seat(t0, k, true) implies #[trigger] self@.players[k]
                    == t0.players[k] by {
                    assert(!dealt_seat(t1, k, true));
                    assert(!dealt_seat(t2, k, true));
                }
            }
        }
        third
    }

    /// A bet phase of seven card stud. The first starts with the player whose turn it is
    /// (the one after the bring-in); each later one with the player who has not folded and
    /// whose up cards make the best hand. When a player short of the call amount is asked,
    /// they are offered call, raise or fold, of which only fold is then allowed.
    ///
    /// A later phase is not played, and an error is returned, when every player has folded
    /// or the up cards of a player who has not folded cannot be ranked as a hand.
    pub fn play_bet_phase(&mut self, phase_number: usize) -> (r: Result<(), &'static str>)
        requires
            old(self).wf(),
            old(self)@.players.len() > 0,
            old(self)@.current_player_index < old(self)@.players.len(),
            money(old(self)@) <= usize::MAX,
        ensures
            final(self).wf(),
            money(final(self)@) == money(old(self)@),
            bet_progress(old(self)@, final(self)@, phase_number),
            forall|k: int| 0 <= k < old(self)@.players.len() ==> #[trigger] super::table::holdings(final(self)@, k)
                == super::table::holdings(old(self)@, k),
            (phase_number == 1 || (someone_in_hand(old(self)@) && up_hands_rankable(old(self)@))) ==> super::table::bet_phase_played(
                if phase_number == 1 {
                    old(self)@
                } else {
                    TableView { current_player_index: best_up_seat(old(self)@) as usize, ..old(self)@ }
                },
                final(self)@,
                r,
                phase_number,
            ),
            final(self)@.current_player_index < final(self)@.players.len(),
            (phase_number != 1 && !(someone_in_hand(old(self)@) && up_hands_rankable(old(self)@))) ==> r
                == Err::<(), &'static str>(no_bet_reason(old(self)@)) && final(self)@ == old(self)@,
    {
        let ghost t0 = self@;
        if phase_number != 1 {
            proof {
                assert(bet_progress(t0, self@, phase_number)) by {
                    assert(t0.pot.history.subrange(0, t0.pot.history.len() as int) =~= t0.pot.history);
                }
            }
            if !self.someone_in_hand_now() {
                return Err("Every player has folded");
            }
            if !self.up_hands_rankable_now() {
                return Err("The up cards of a player cannot be ranked as a hand");
            }
            let b = self.find_player_with_best_up_card_hand();
            proof {
                lemma_best_up_upto(t0, t0.players.len() as int);
                super::table::lemma_cards_kept_same(t0, TableView { current_player_index: b, ..t0 });
            }
            self.table.set_current_player(b);
        }
        let ghost t1 = self@;
        let r = self.table.play_bet_phase(phase_number, false, false, false);
        proof {
            let t2 = self@;
            assert(t2.pot.history.subrange(0, t0.pot.history.len() as int) =~= t2.pot.history.subrange(
                0,
                t1.pot.history.len() as int,
            ));
        }
        r
    }

    /// Whether some player at the table has not folded.
    fn someone_in_hand_now(&self) -> (r: bool)
        ensures
            r == someone_in_hand(self@),
    {
        let players = self.table.players();
        let mut k: usize = 0;
        while k < players.len()
            invariant
                k <= players@.len(),
                players@.map_values(|x: Player| x@) == self@.players,
                forall|j: int| 0 <= j < k ==> !in_hand(self@, j),
            decreases players@.len() - k,
        {
            assert(players@[k as int]@ == self@.players[k as int]);
            if !self.table.pot().player_has_folded(&players[k].account_id()) {
                assert(in_hand(self@, k as int));
                return true;
            }
            k = k + 1;
        }
        false
    }

    /// Whether the up cards of every player who has not folded make a hand that can be
    /// ranked.
    fn up_hands_rankable_now(&self) -> (r: bool)
        ensures
            r == up_hands_rankable(self@),
    {
        let players = self.table.players();
        let mut k: usize = 0;
        while k < players.len()
            invariant
                k <= players@.len(),
                players@.map_values(|x: Player| x@) == self@.players,
                forall|j: int| 0 <= j < k && in_hand(self@, j) ==> rank_hand_defined(up_cards(#[trigger] self@.players[j].cards)),
            decreases players@.len() - k,
        {
            assert(players@[k as int]@ == self@.players[k as int]);
            if !self.table.pot().player_has_folded(&players[k].account_id()) {
                let up = up_cards_of(players[k].cards());
                if !Hand::is_rankable(up.as_slice()) {
                    return false;
                }
            }
            k = k + 1;
        }
        true
    }

    /// The first bet phase, after the bring-in.
    pub fn play_phase_one(&mut self) -> (r: Result<(), &'static str>)
        requires
            old(self).wf(),
            old(self)@.players.len() > 0,
            old(self)@.current_player_index < old(self)@.players.len(),
            money(old(self)@) <= usize::MAX,
        ensures
            final(self).wf(),
            money(final(self)@) == money(old(self)@),
            bet_progress(old(self)@, final(self)@, 1),
            forall|k: int| 0 <= k < old(self)@.players.len() ==> #[trigger] super::table::holdings(final(self)@, k)
                == super::table::holdings(old(self)@, k),
            super::table::bet_phase_played(old(self)@, final(self)@, r, 1),
            final(self)@.current_player_index < final(self)@.players.len(),
    {
        self.play_bet_phase(1)
    }

    /// The second bet phase, after the fourth card.
    pub fn play_phase_two(&mut self) -> (r: Result<(), &'static str>)
        requires
            old(self).wf(),
            old(self)@.players.len() > 0,
            old(self)@.current_player_index < old(self)@.players.len(),
            money(old(self)@) <= usize::MAX,
        ensures
            final(self).wf(),
            money(final(self)@) == money(old(self)@),
            bet_progress(old(self)@, final(self)@, 2),
            forall|k: int| 0 <= k < old(self)@.players.len() ==> #[trigger] super::table::holdings(final(self)@, k)
                == super::table::holdings(old(self)@, k),
            (someone_in_hand(old(self)@) && up_hands_rankable(old(self)@)) ==> super::table::bet_phase_played(
                TableView { current_player_index: best_up_seat(old(self)@) as usize, ..old(self)@ },
                final(self)@,
                r,
                2,
            ),
            final(self)@.current_player_index < final(self)@.players.len(),
            !(someone_in_hand(old(self)@) && up_hands_rankable(old(self)@)) ==> r is Err && final(self)@ == old(self)@,
    {
        self.play_bet_phase(2)
    }

    /// The third bet phase, after the fifth card.
    pub fn play_phase_three(&mut self) -> (r: Result<(), &'static str>)
        requires
            old(self).wf(),
            old(self)@.players.len() > 0,
            old(self)@.current_player_index < old(self)@.players.len(),
            money(old(self)@) <= usize::MAX,
        ensures
            final(self).wf(),
            money(final(self)@) == money(old(self)@),
            bet_progress(old(self)@, final(self)@, 3),
            forall|k: int| 0 <= k < old(self)@.players.len() ==> #[trigger] super::table::holdings(final(self)@, k)
                == super::table::holdings(old(self)@, k),
            (someone_in_hand(old(self)@) && up_hands_rankable(old(self)@)) ==> super::table::bet_phase_played(
                TableView { current_player_index: best_up_seat(old(self)@) as usize, ..old(self)@ },
                final(self)@,
                r,
                3,
            ),
            final(self)@.current_player_index < final(self)@.players.len(),
            !(someone_in_hand(old(self)@) && up_hands_rankable(old(self)@)) ==> r is Err && final(self)@ == old(self)@,
    {
        self.play_bet_phase(3)
    }

    /// The fourth bet phase, after the sixth card.
    pub fn play_phase_four(&mut self) -> (r: Result<(), &'static str>)
        requires
            old(self).wf(),
            old(self)@.players.len() > 0,
            old(self)@.current_player_index < old(self)@.players.len(),
            money(old(self)@) <= usize::MAX,
        ensures
            final(self).wf(),
            money(final(self)@) == money(old(self)@),
            bet_progress(old(self)@, final(self)@, 4),
            forall|k: int| 0 <= k < old(self)@.players.len() ==> #[trigger] super::table::holdings(final(self)@, k)
                == super::table::holdings(old(self)@, k),
            (someone_in_hand(old(self)@) && up_hands_rankable(old(self)@)) ==> super::table::bet_phase_played(
                TableView { current_player_index: best_up_seat(old(self)@) as usize, ..old(self)@ },
                final(self)@,
                r,
                4,
            ),
            final(self)@.current_player_index < final(self)@.players.len(),
            !(someone_in_hand(old(self)@) && up_hands_rankable(old(self)@)) ==> r is Err && final(self)@ == old(self)@,
    {
        self.play_bet_phase(4)
    }

    /// The fifth bet phase, after the last card (dealt face down).
    pub fn play_phase_five(&mut self) -> (r: Result<(), &'static str>)
        requires
            old(self).wf(),
            old(self)@.players.len() > 0,
            old(self)@.current_player_index < old(self)@.players.len(),
            money(old(self)@) <= usize::MAX,
        ensures
            final(self).wf(),
            money(final(self)@) == money(old(self)@),
            bet_progress(old(self)@, final(self)@, 5),
            forall|k: int| 0 <= k < old(self)@.players.len() ==> #[trigger] super::table::holdings(final(self)@, k)
                == super::table::holdings(old(self)@, k),
            (someone_in_hand(old(self)@) && up_hands_rankable(old(self)@)) ==> super::table::bet_phase_played(
                TableView { current_player_index: best_up_seat(old(self)@) as usize, ..old(self)@ },
                final(self)@,
                r,
                5,
            ),
            final(self)@.current_player_index < final(self)@.players.len(),
            !(someone_in_hand(old(self)@) && up_hands_rankable(old(self)@)) ==> r is Err && final(self)@ == old(self)@,
    {
        self.play_bet_phase(5)
    }

    /// Shows everyone the cards of each player who has not folded, starting with the player
    /// whose turn it is and going once round the table.
    pub fn showdown(&self)
        requires
            self@.current_player_index < self@.players.len(),
    {
        let players = self.table.players();
        let n = players.len();
        let mut i = self.table.current_player_index();
        let mut c: usize = 0;
        while c < n
            invariant
                n == players@.len(),
                i < n,
                c <= n,
            decreases n - c,
        {
            if !self.table.pot().player_has_folded(&players[i].account_id()) {
                self.table.input().display_current_player(&players[i]);
                self.table.input().display_player_cards_to_player(&players[i]);
            }
            i = if i + 1 == n { 0 } else { i + 1 };
            c = c + 1;
        }
    }

    /// Takes back every player's cards into the deck.
    pub fn return_player_cards(&mut self)
        requires
            old(self).wf(),
        ensures
            final(self).wf(),
            final(self)@ == (TableView { players: final(self)@.players, deck: final(self)@.deck, ..old(self)@ }),
            final(self)@.players.len() == old(self)@.players.len(),
            forall|i: int| 0 <= i < old(self)@.players.len() ==> #[trigger] final(self)@.players[i] == (PlayerView {
                cards: Seq::empty(),
                ..old(self)@.players[i]
            }),
            forall|r: Rank, su: Suit| #[trigger] count_card(final(self)@.deck, r, su)
                == count_card(old(self)@.deck, r, su) + hand_count(old(self)@.players, r, su),
    {
        self.table.return_player_cards()
    }

    /// Ends a round that cannot go on: the cards go back to the deck and the players leave
    /// the table, given back with the reason.
    fn abort_round(&mut self, reason: &'static str) -> (r: (&'static str, Vec<Player>))
        requires
            old(self).wf(),
        ensures
            final(self).wf(),
            r.0 == reason,
            views(r.1@).len() == old(self)@.players.len(),
            forall|i: int| 0 <= i < old(self)@.players.len() ==> #[trigger] views(r.1@)[i]
                == (PlayerView { cards: Seq::empty(), ..old(self)@.players[i] }),
            final(self)@.players.len() == 0,
            final(self)@.community.len() == 0,
    {
        self.table.return_player_cards();
        self.table.return_community_cards();
        let ps = self.table.take_players();
        (reason, ps)
    }
}

/// After the bring-in, the round is under way.
proof fn lemma_bring_in_stage(given: Seq<PlayerView>, t1: TableView, t2: TableView, b: int, amount: usize, c: usize)
    requires
        same_accounts(given, t1.players),
        money(t1) == balances(given),
        balances(given) <= usize::MAX,
        t1.players.len() >= 2,
        t1.dealer_position < t1.players.len(),
        t1.pot.history.len() == 0,
        0 <= b < t1.players.len(),
        t2 == (TableView { current_player_index: c, ..after_turn(t1, b, Action::Ante(amount), 0, amount as nat) }),
        money(t2) == money(t1),
    ensures
        in_round(given, t2),
{
    assert(t2.pot.history.len() == 1);
}

/// Why no bet phase after the first can be played at `t`: every player has folded, or the
/// up cards of a player in hand cannot be ranked.
pub open spec fn no_bet_reason(t: TableView) -> &'static str {
    if !someone_in_hand(t) {
        "Every player has folded"
    } else {
        "The up cards of a player cannot be ranked as a hand"
    }
}

/// `b` is `a` after two cards face down and one face up were dealt to each player who has
/// not folded.
pub open spec fn dealt_three(a: TableView, b: TableView) -> bool {
    &&& b == (TableView { players: b.players, deck: b.deck, ..a })
    &&& b.players.len() == a.players.len()
    &&& forall|k: int| 0 <= k < a.players.len() ==> {
        let p0 = a.players[k];
        let p1 = #[trigger] b.players[k];
        let l = p0.cards.len() as int;
        &&& p1 == (PlayerView { cards: p1.cards, ..p0 })
        &&& dealt_seat(a, k, true) ==> p1.cards.len() == l + 3 && p1.cards.subrange(0, l) == p0.cards
            && !p1.cards[l]@.face_up && !p1.cards[l + 1]@.face_up && p1.cards[l + 2]@.face_up
        &&& !dealt_seat(a, k, true) ==> p1 == p0
    }
}

/// A round of seven card stud from the table `t`, where the players have just taken their
/// seats (see `round_start`), ends at the table `e` with the error `err`, if any: two cards
/// face down and one face up are dealt to each player (when the deck runs short the round
/// ends, the players as they were but for their cards), then comes the bring-in.
pub open spec fn seven_card_stud_round(t: TableView, e: TableView, err: Option<&'static str>) -> bool {
    if t.deck.len() >= 3 * count_dealt_seats(t, t.players.len() as int, true) {
        exists|f: TableView| #[trigger] dealt_three(t, f) && stud_bring_in_stage(f, e, err)
    } else {
        err == Some("There are no cards remaining in the deck, so no card can be dealt") && without_cards(e.players) == without_cards(t.players)
    }
}

/// The bring-in at `t`: the player showing the lowest up card antes the minimum bet and the
/// turn passes to the next seat, then the first bet phase follows; when it cannot be paid,
/// the round ends at `t` with the reason.
pub open spec fn stud_bring_in_stage(t: TableView, e: TableView, err: Option<&'static str>) -> bool {
    let b = lowest_up_seat(t.players, t.players.len() as int);
    let amount = t.big_blind_amount as usize;
    if blind_payable(t, b, amount as nat) {
        stud_first_bet_stage(
            TableView {
                current_player_index: next_seat(b as usize, t.players.len()),
                ..after_turn(t, b, Action::Ante(amount), 0, amount as nat)
            },
            e,
            err,
        )
    } else {
        (err matches Some(x) && blind_error(x)) && e == t
    }
}

/// The first bet phase of seven card stud from `t`, going on from the player after the
/// bring-in; when it fails, the round ends with its reason, else the fourth card follows.
pub open spec fn stud_first_bet_stage(t: TableView, e: TableView, err: Option<&'static str>) -> bool {
    exists|f: TableView, r: Result<(), &'static str>| {
        &&& #[trigger] bet_phase_played(t, f, r, 1)
        &&& bet_progress(t, f, 1)
        &&& r matches Err(x) ==> err == Some(x) && e == f
        &&& r is Ok ==> stud_card_stage_two(f, e, err)
    }
}

/// Before bet phase 2 of seven card stud at `t`: a card face up to each player who has not
/// folded (when the deck runs short, the round ends, the players as they were but for their
/// cards), then the bet phase.
pub open spec fn stud_card_stage_two(t: TableView, e: TableView, err: Option<&'static str>) -> bool {
    if t.deck.len() < count_dealt_seats(t, t.players.len() as int, true) {
        err == Some("There are no cards remaining in the deck, so no card can be dealt") && without_cards(e.players) == without_cards(t.players)
    } else {
        exists|f: TableView| #[trigger] round_dealt(t, f, true, true) && stud_bet_stage_two(f, e, err)
    }
}

/// Bet phase 2 of seven card stud at `t`, starting with the player whose up cards make the
/// best hand; when no player is in hand or some up cards cannot be ranked, or the phase
/// fails, the round ends with the reason, else the next card follows.
pub open spec fn stud_bet_stage_two(t: TableView, e: TableView, err: Option<&'static str>) -> bool {
    if someone_in_hand(t) && up_hands_rankable(t) {
        exists|f: TableView, r: Result<(), &'static str>| {
            &&& #[trigger] bet_phase_played(TableView { current_player_index: best_up_seat(t) as usize, ..t }, f, r, 2)
            &&& bet_progress(t, f, 2)
            &&& r matches Err(x) ==> err == Some(x) && e == f
            &&& r is Ok ==> stud_card_stage_three(f, e, err)
        }
    } else {
        err == Some(no_bet_reason(t)) && e == t
    }
}

/// Before bet phase 3 of seven card stud at `t`: a card face up to each player who has not
/// folded (when the deck runs short, the round ends, the players as they were but for their
/// cards), then the bet phase.
pub open spec fn stud_card_stage_three(t: TableView, e: TableView, err: Option<&'static str>) -> bool {
    if t.deck.len() < count_dealt_seats(t, t.players.len() as int, true) {
        err == Some("There are no cards remaining in the deck, so no card can be dealt") && without_cards(e.players) == without_cards(t.players)
    } else {
        exists|f: TableView| #[trigger] round_dealt(t, f, true, true) && stud_bet_stage_three(f, e, err)
    }
}

/// Bet phase 3 of seven card stud at `t`, starting with the player whose up cards make the
/// best hand; when no player is in hand or some up cards cannot be ranked, or the phase
/// fails, the round ends with the reason, else the next card follows.
pub open spec fn stud_bet_stage_three(t: TableView, e: TableView, err: Option<&'static str>) -> bool {
    if someone_in_hand(t) && up_hands_rankable(t) {
        exists|f: TableView, r: Result<(), &'static str>| {
            &&& #[trigger] bet_phase_played(TableView { current_player_index: best_up_seat(t) as usize, ..t }, f, r, 3)
            &&& bet_progress(t, f, 3)
            &&& r matches Err(x) ==> err == Some(x) && e == f
            &&& r is Ok ==> stud_card_stage_four(f, e, err)
        }
    } else {
        err == Some(no_bet_reason(t)) && e == t
    }
}

/// Before bet phase 4 of seven card stud at `t`: a card face up to each player who has not
/// folded (when the deck runs short, the round ends, the players as they were but for their
/// cards), then the bet phase.
pub open spec fn stud_card_stage_four(t: TableView, e: TableView, err: Option<&'static str>) -> bool {
    if t.deck.len() < count_dealt_seats(t, t.players.len() as int, true) {
        err == Some("There are no cards remaining in the deck, so no card can be dealt") && without_cards(e.players) == without_cards(t.players)
    } else {
        exists|f: TableView| #[trigger] round_dealt(t, f, true, true) && stud_bet_stage_four(f, e, err)
    }
}

/// Bet phase 4 of seven card stud at `t`, starting with the player whose up cards make the
/// best hand; when no player is in hand or some up cards cannot be ranked, or the phase
/// fails, the round ends with the reason, else the next card follows.
pub open spec fn stud_bet_stage_four(t: TableView, e: TableView, err: Option<&'static str>) -> bool {
    if someone_in_hand(t) && up_hands_rankable(t) {
        exists|f: TableView, r: Result<(), &'static str>| {
            &&& #[trigger] bet_phase_played(TableView { current_player_index: best_up_seat(t) as usize, ..t }, f, r, 4)
            &&& bet_progress(t, f, 4)
            &&& r matches Err(x) ==> err == Some(x) && e == f
            &&& r is Ok ==> stud_card_stage_five(f, e, err)
        }
    } else {
        err == Some(no_bet_reason(t)) && e == t
    }
}

/// Before bet phase 5 of seven card stud at `t`: a card face down to each player who has not
/// folded (when the deck runs short, the round ends, the players as they were but for their
/// cards), then the bet phase.
pub open spec fn stud_card_stage_five(t: TableView, e: TableView, err: Option<&'static str>) -> bool {
    if t.deck.len() < count_dealt_seats(t, t.players.len() as int, true) {
        err == Some("There are no cards remaining in the deck, so no card can be dealt") && without_cards(e.players) == without_cards(t.players)
    } else {
        exists|f: TableView| #[trigger] round_dealt(t, f, true, false) && stud_bet_stage_five(f, e, err)
    }
}

/// Bet phase 5 of seven card stud at `t`, starting with the player whose up cards make the
/// best hand; when no player is in hand or some up cards cannot be ranked, or the phase
/// fails, the round ends with the reason, else the showdown follows.
pub open spec fn stud_bet_stage_five(t: TableView, e: TableView, err: Option<&'static str>) -> bool {
    if someone_in_hand(t) && up_hands_rankable(t) {
        exists|f: TableView, r: Result<(), &'static str>| {
            &&& #[trigger] bet_phase_played(TableView { current_player_index: best_up_seat(t) as usize, ..t }, f, r, 5)
            &&& bet_progress(t, f, 5)
            &&& r matches Err(x) ==> err == Some(x) && e == f
            &&& r is Ok ==> showdown_ends(f, e, err)
        }
    } else {
        err == Some(no_bet_reason(t)) && e == t
    }
}

impl<I: Input> SevenCardStud<I> {
    /// The first bet phase and what follows it, to the end of the round.
    fn play_first_bet(&mut self, Ghost(given): Ghost<Seq<PlayerView>>) -> (r: Result<(), &'static str>)
        requires
            old(self).wf(),
            in_round(given, old(self)@),
            old(self)@.current_player_index < old(self)@.players.len(),
        ensures
            final(self).wf(),
            stud_first_bet_stage(old(self)@, final(self)@, step_error(r)),
            same_accounts(given, final(self)@.players),
            balances(final(self)@.players) <= balances(given),
    {
        let ghost t = self@;
        let r = self.play_phase_one();
        let ghost f = self@;
        proof {
            lemma_bet_stage(given, t, f, 1);
            assert(bet_phase_played(t, f, r, 1));
        }
        if let Err(x) = r {
            return Err(x);
        }
        self.play_card_two(Ghost(given))
    }

    /// The card before bet phase 2 and what follows it.
    fn play_card_two(&mut self, Ghost(given): Ghost<Seq<PlayerView>>) -> (r: Result<(), &'static str>)
        requires
            old(self).wf(),
            in_round(given, old(self)@),
            old(self)@.current_player_index < old(self)@.players.len(),
        ensures
            final(self).wf(),
            stud_card_stage_two(old(self)@, final(self)@, step_error(r)),
            same_accounts(given, final(self)@.players),
            balances(final(self)@.players) <= balances(given),
    {
        let ghost t = self@;
        let dealt = self.deal_up_cards();
        let ghost f = self@;
        proof {
            lemma_deal_stage(given, t, f);
        }
        if let Err(_) = dealt {
            proof {
                lemma_without_cards_same(t.players, f.players);
            }
            return Err("There are no cards remaining in the deck, so no card can be dealt");
        }
        proof {
            assert(round_dealt(t, f, true, true));
        }
        let bet = self.play_bet_phase(2);
        let ghost g = self@;
        proof {
            lemma_bet_stage(given, f, g, 2);
            if someone_in_hand(f) && up_hands_rankable(f) {
                assert(bet_phase_played(TableView { current_player_index: best_up_seat(f) as usize, ..f }, g, bet, 2));
            }
        }
        if let Err(x) = bet {
            return Err(x);
        }
        self.play_card_three(Ghost(given))
    }

    /// The card before bet phase 3 and what follows it.
    fn play_card_three(&mut self, Ghost(given): Ghost<Seq<PlayerView>>) -> (r: Result<(), &'static str>)
        requires
            old(self).wf(),
            in_round(given, old(self)@),
            old(self)@.current_player_index < old(self)@.players.len(),
        ensures
            final(self).wf(),
            stud_card_stage_three(old(self)@, final(self)@, step_error(r)),
            same_accounts(given, final(self)@.players),
            balances(final(self)@.players) <= balances(given),
    {
        let ghost t = self@;
        let dealt = self.deal_up_cards();
        let ghost f = self@;
        proof {
            lemma_deal_stage(given, t, f);
        }
        if let Err(_) = dealt {
            proof {
                lemma_without_cards_same(t.players, f.players);
            }
            return Err("There are no cards remaining in the deck, so no card can be dealt");
        }
        proof {
            assert(round_dealt(t, f, true, true));
        }
        let bet = self.play_bet_phase(3);
        let ghost g = self@;
        proof {
            lemma_bet_stage(given, f, g, 3);
            if someone_in_hand(f) && up_hands_rankable(f) {
                assert(bet_phase_played(TableView { current_player_index: best_up_seat(f) as usize, ..f }, g, bet, 3));
            }
        }
        if let Err(x) = bet {
            return Err(x);
        }
        self.play_card_four(Ghost(given))
    }

    /// The card before bet phase 4 and what follows it.
    fn play_card_four(&mut self, Ghost(given): Ghost<Seq<PlayerView>>) -> (r: Result<(), &'static str>)
        requires
            old(self).wf(),
            in_round(given, old(self)@),
            old(self)@.current_player_index < old(self)@.players.len(),
        ensures
            final(self).wf(),
            stud_card_stage_four(old(self)@, final(self)@, step_error(r)),
            same_accounts(given, final(self)@.players),
            balances(final(self)@.players) <= balances(given),
    {
        let ghost t = self@;
        let dealt = self.deal_up_cards();
        let ghost f = self@;
        proof {
            lemma_deal_stage(given, t, f);
        }
        if let Err(_) = dealt {
            proof {
                lemma_without_cards_same(t.players, f.players);
            }
            return Err("There are no cards remaining in the deck, so no card can be dealt");
        }
        proof {
            assert(round_dealt(t, f, true, true));
        }
        let bet = self.play_bet_phase(4);
        let ghost g = self@;
        proof {
            lemma_bet_stage(given, f, g, 4);
            if someone_in_hand(f) && up_hands_rankable(f) {
                assert(bet_phase_played(TableView { current_player_index: best_up_seat(f) as usize, ..f }, g, bet, 4));
            }
        }
        if let Err(x) = bet {
            return Err(x);
        }
        self.play_card_five(Ghost(given))
    }

    /// The card before bet phase 5 and what follows it.
    fn play_card_five(&mut self, Ghost(given): Ghost<Seq<PlayerView>>) -> (r: Result<(), &'static str>)
        requires
            old(self).wf(),
            in_round(given, old(self)@),
            old(self)@.current_player_index < old(self)@.players.len(),
        ensures
            final(self).wf(),
            stud_card_stage_five(old(self)@, final(self)@, step_error(r)),
            same_accounts(given, final(self)@.players),
            balances(final(self)@.players) <= balances(given),
    {
        let ghost t = self@;
        let dealt = self.deal_down_cards();
        let ghost f = self@;
        proof {
            lemma_deal_stage(given, t, f);
        }
        if let Err(_) = dealt {
            proof {
                lemma_without_cards_same(t.players, f.players);
            }
            return Err("There are no cards remaining in the deck, so no card can be dealt");
        }
        proof {
            assert(round_dealt(t, f, true, false));
        }
        let bet = self.play_bet_phase(5);
        let ghost g = self@;
        proof {
            lemma_bet_stage(given, f, g, 5);
            if someone_in_hand(f) && up_hands_rankable(f) {
                assert(bet_phase_played(TableView { current_player_index: best_up_seat(f) as usize, ..f }, g, bet, 5));
            }
        }
        if let Err(x) = bet {
            return Err(x);
        }
        proof {
            assert(g.pot.history.len() > 0 ==> g.pot.history.last().2 <= 5) by {
                if g.pot.history.len() > 0 {
                    assert(g.pot.history.last() == g.pot.history[g.pot.history.len() - 1]);
                }
            }
        }
        self.showdown();
        let res = self.table.showdown();
        proof {
            lemma_showdown_stage(given, g, self@, res is Ok);
            assert(showdown_ends(g, self@, step_error(res)));
        }
        res
    }

}

impl<I: Input> Rules for SevenCardStud<I> {
    open spec fn wf(&self) -> bool {
        super::table::seated(self@)
    }

    /// A round of seven card stud is refused, the game unchanged and the players given back
    /// as they came, when `round_refusal` says so; otherwise it is played as
    /// `seven_card_stud_round` says from the table where the players took their seats, and
    /// the players leave the table.
    open spec fn round_played(
        before: Self,
        after: Self,
        given: Seq<PlayerView>,
        back: Seq<PlayerView>,
        err: Option<&'static str>,
    ) -> bool {
        match round_refusal(before@, given, 7, "Cannot start a game with more than 7 players, as the deck may run out of cards") {
            Some(reason) => err == Some(reason) && back == given && after@ == before@,
            None => {
                &&& after@.players.len() == 0
                &&& after@.community.len() == 0
                &&& players_back(given, back)
                &&& exists|e: TableView| #[trigger] seven_card_stud_round(round_start(before@, given), e, err)
                    && back == without_cards(e.players)
            },
        }
    }

    /// A new game of seven card stud: no players yet, a full deck, an empty pot; the minimum
    /// bet is the bring-in.
    fn new(raise_limit: u32, minimum_bet: u32, game_id: u128) -> (r: SevenCardStud<I>)
        ensures
            r.wf(),
            r@.players.len() == 0,
            r@.deck.len() == 52,
            r@.dealer_position == 0,
            r@.current_player_index == 0,
            r@.raise_limit == raise_limit,
            r@.big_blind_amount == minimum_bet,
            r@.pot.history.len() == 0,
            r@.pot.stakes.len() == 0,
            r@.community.len() == 0,
            r.game() == game_id,
    {
        SevenCardStud { table: Table::new(raise_limit, minimum_bet), game_id }
    }

    /// Plays a whole round of seven card stud: the dealer moves on and the turn goes to the
    /// dealer's seat; two cards face down and one face up are dealt to each player, the
    /// bring-in is paid and the first bet phase played; three cards face up and a last one
    /// face down follow, each before a bet phase. At the showdown everyone is shown the hands
    /// of the players who have not folded, and the pot is divided among them (see
    /// `Table::showdown`). The cards go back to the deck and the players are given back.
    ///
    /// A round is refused, with the players given back unchanged, when `round_refusal` says
    /// so (fewer than 2 or more than 7 players among others). Otherwise, the players are
    /// given back with their accounts, names and no cards, and never with more money in all
    /// than they brought; when a step fails (an answer missing or not allowed, a bring-in
    /// that cannot be paid), the reason is given with them.
    fn play_round(&mut self, players: Vec<Player>) -> (r: Result<Vec<Player>, (&'static str, Vec<Player>)>)
        ensures
            final(self).wf(),
            ({
                let given = players@.map_values(|p: Player| p@);
                let refusal = round_refusal(
                    old(self)@,
                    given,
                    7,
                    "Cannot start a game with more than 7 players, as the deck may run out of cards",
                );
                &&& refusal matches Some(reason) ==> r == Err::<Vec<Player>, (&'static str, Vec<Player>)>((reason, players))
                    && final(self)@ == old(self)@
                &&& refusal is None ==> {
                    &&& players_back(given, players_given_back(r))
                    &&& final(self)@.players.len() == 0
                }
            }),
    {
        let ghost given = players@.map_values(|p: Player| p@);
        if players.len() < 2 {
            return Err(("Cannot start a game with less than 2 players", players));
        }
        if players.len() > 7 {
            return Err(("Cannot start a game with more than 7 players, as the deck may run out of cards", players));
        }
        if balances_overflow(&players) {
            return Err(("The players' balances are too large", players));
        }
        let seated = self.table.players();
        if self.table.deck().size() != 52 || self.table.community_cards().len() != 0 || holds_cards(seated) {
            proof {
                if exists|i: int| 0 <= i < seated@.len() && (#[trigger] seated@[i])@.cards.len() > 0 {
                    let i = choose|i: int| 0 <= i < seated@.len() && (#[trigger] seated@[i])@.cards.len() > 0;
                    assert(old(self)@.players[i] == seated@[i]@);
                }
                assert forall|i: int| 0 <= i < players@.len() implies (#[trigger] given[i]).cards.len() == 0 by {
                    assert(given[i] == players@[i]@);
                    assert(!(players@[i]@.cards.len() > 0));
                }
            }
            return Err(("The deck must be complete when a round starts", players));
        }
        proof {
            assert forall|i: int| 0 <= i < players@.len() implies (#[trigger] players@[i])@.cards.len() == 0 by {
                assert(given[i] == players@[i]@);
            }
            assert forall|i: int| 0 <= i < old(self)@.players.len() implies (#[trigger] old(self)@.players[i]).cards.len() == 0 by {
                assert(old(self)@.players[i] == seated@[i]@);
                assert(!(seated@[i]@.cards.len() > 0));
            }
        }
        let _ = self.table.seat_players(players);
        let ghost t0 = self@;
        proof {
            crate::pot::lemma_zero_stakes(player_ids(given));
            lemma_balances_same(given, t0.players);
        }
        self.table.increment_dealer_position();
        self.table.reset_turn_to_dealer();
        let ghost t1 = self@;
        proof {
            lemma_balances_same(t0.players, t1.players);
            assert(same_accounts(given, t1.players));
            assert(t1 == round_start(old(self)@, given));
        }
        match self.deal_initial_cards() {
            Ok(()) => {},
            Err(_) => {
                let ghost ta = self@;
                proof {
                    lemma_balances_same(t1.players, ta.players);
                    lemma_without_cards_same(t1.players, ta.players);
                }
                let r = self.abort_round("There are no cards remaining in the deck, so no card can be dealt");
                proof {
                    lemma_back_after_abort(given, ta.players, r.1@.map_values(|p: Player| p@));
                    assert(seven_card_stud_round(t1, ta, Some(r.0)));
                }
                return Err(r);
            },
        }
        let ghost t2 = self@;
        proof {
            assert(dealt_three(t1, t2));
            lemma_balances_same(t1.players, t2.players);
            assert forall|k: int| 0 <= k < t2.players.len() implies one_up_card(#[trigger] t2.players[k].cards) by {
                assert(dealt_seat(t1, k, true));
                assert(given[k].cards.len() == 0);
                let cs = t2.players[k].cards;
                assert(up_card_at(cs, 2)) by {
                    assert forall|j: int| 0 <= j < cs.len() && j != 2 implies !(#[trigger] cs[j])@.face_up by {
                        if j == 0 {
                            assert(!cs[0]@.face_up);
                        } else {
                            assert(!cs[1]@.face_up);
                        }
                    }
                }
            }
        }
        match self.play_bring_in() {
            Ok(()) => {},
            Err(e) => {
                let r = self.abort_round(e);
                proof {
                    lemma_back_after_abort(given, t2.players, r.1@.map_values(|p: Player| p@));
                    assert(stud_bring_in_stage(t2, t2, Some(e)));
                    assert(seven_card_stud_round(t1, t2, Some(e)));
                }
                return Err(r);
            },
        }
        proof {
            let b = lowest_up_seat(t2.players, t2.players.len() as int);
            lemma_lowest_up_seat(t2.players, t2.players.len() as int);
            assert(t2.pot.stakes == zero_stakes(player_ids(given)));
            assert(seat_stake(t2, b) == 0);
            lemma_bring_in_stage(given, t2, self@, b, t2.big_blind_amount as usize, self@.current_player_index);
        }
        let played = self.play_first_bet(Ghost(given));
        let ghost e = self@;
        proof {
            assert(stud_bring_in_stage(t2, e, step_error(played)));
            assert(seven_card_stud_round(t1, e, step_error(played)));
        }
        if let Err(x) = played {
            let r = self.abort_round(x);
            proof {
                lemma_back_after_abort(given, e.players, r.1@.map_values(|p: Player| p@));
            }
            return Err(r);
        }
        self.table.return_player_cards();
        self.table.return_community_cards();
        let ps = self.table.take_players();
        proof {
            lemma_back_after_abort(given, e.players, ps@.map_values(|p: Player| p@));
        }
        Ok(ps)
    }

    /// The pot of the last round.
    fn pot(&self) -> (p: &Pot)
        ensures
            p@ == self@.pot,
    {
        self.table.pot()
    }

    /// The ID of the game.
    fn game_id(&self) -> (id: u128)
        ensures
            id == self.game(),
    {
        self.game_id
    }
}

} // verus!
