use vstd::prelude::*;

use crate::game_type::GameType;
use crate::input::Input;
use five_card_draw::FiveCardDraw;
use seven_card_stud::SevenCardStud;
use texas_holdem::TexasHoldem;

pub mod five_card_draw;
pub mod ranking;
pub mod round;
pub mod seven_card_stud;
pub mod table;
pub mod texas_holdem;

verus! {

/// The rules of a poker variant.
pub trait Rules: Sized {
    /// The game is consistent.
    spec fn wf(&self) -> bool;

    /// New rules with a raise limit, a minimum bet (the big blind) and the game's ID.
    fn new(raise_limit: u32, minimum_bet: u32, game_id: u128) -> (r: Self)
        ensures
            r.wf(),
    ;

    /// What a round played by the rules `before` with the players `given` does: it leaves
    /// the rules at `after` and gives back the players `back`, with the error `err` when the
    /// round could not be played to its end.
    spec fn round_played(
        before: Self,
        after: Self,
        given: Seq<crate::player::PlayerView>,
        back: Seq<crate::player::PlayerView>,
        err: Option<&'static str>,
    ) -> bool;

    /// Plays a whole round with the players, who stay in the game for the entire round, and
    /// gives them back (see `round_played`). When the round cannot be played, the players
    /// are given back with the reason. The players must each have an account of their own
    /// and hold no cards (see `players_ready`). Either way the same players come back, seat by seat,
    /// and a round never leaves them with more money in all than they brought.
    fn play_round(&mut self, players: Vec<crate::player::Player>) -> (r: Result<Vec<crate::player::Player>, (&'static str, Vec<crate::player::Player>)>)
        requires
            old(self).wf(),
            round::players_ready(players@.map_values(|p: crate::player::Player| p@)),
        ensures
            final(self).wf(),
            round::same_accounts(players@.map_values(|p: crate::player::Player| p@), round::players_given_back(r)),
            forall|k: int| 0 <= k < round::players_given_back(r).len() ==> (#[trigger] round::players_given_back(r)[k]).cards.len() == 0,
            table::balances(round::players_given_back(r)) <= table::balances(
                players@.map_values(|p: crate::player::Player| p@),
            ),
            Self::round_played(
                *old(self),
                *final(self),
                players@.map_values(|p: crate::player::Player| p@),
                round::players_given_back(r),
                round::error_of(r),
            ),
    ;

    /// The pot of the last round, with its history of turns.
    fn pot(&self) -> &crate::pot::Pot;

    /// The ID of the game.
    fn game_id(&self) -> u128;
}

/// One of the poker variants' rules.
pub enum RulesEnum<I: Input> {
    FiveCardDraw(FiveCardDraw<I>),
    SevenCardStud(SevenCardStud<I>),
    TexasHoldem(TexasHoldem<I>),
}

impl<I: Input> RulesEnum<I> {
    /// The rules are consistent.
    pub open spec fn wf(&self) -> bool {
        match self {
            RulesEnum::FiveCardDraw(r) => r.wf(),
            RulesEnum::SevenCardStud(r) => r.wf(),
            RulesEnum::TexasHoldem(r) => r.wf(),
        }
    }

    /// What a round played by the rules `before` did (see `Rules::round_played`): the rules
    /// are of the same variant after it.
    pub open spec fn round_played(
        before: Self,
        after: Self,
        given: Seq<crate::player::PlayerView>,
        back: Seq<crate::player::PlayerView>,
        err: Option<&'static str>,
    ) -> bool {
        match (before, after) {
            (RulesEnum::FiveCardDraw(a), RulesEnum::FiveCardDraw(b)) => <FiveCardDraw<I> as Rules>::round_played(a, b, given, back, err),
            (RulesEnum::SevenCardStud(a), RulesEnum::SevenCardStud(b)) => <SevenCardStud<I> as Rules>::round_played(a, b, given, back, err),
            (RulesEnum::TexasHoldem(a), RulesEnum::TexasHoldem(b)) => <TexasHoldem<I> as Rules>::round_played(a, b, given, back, err),
            _ => false,
        }
    }

    /// The game type these rules play.
    pub fn to_game_type(&self) -> (g: GameType)
        ensures
            self is FiveCardDraw ==> g == GameType::FiveCardDraw,
            self is SevenCardStud ==> g == GameType::SevenCardStud,
            self is TexasHoldem ==> g == GameType::TexasHoldem,
    {
        match self {
            RulesEnum::FiveCardDraw(_) => GameType::FiveCardDraw,
            RulesEnum::SevenCardStud(_) => GameType::SevenCardStud,
            RulesEnum::TexasHoldem(_) => GameType::TexasHoldem,
        }
    }
}

} // verus!
