use vstd::prelude::*;

use crate::action_option::ActionOption;
use crate::card::Card;
use crate::game_type::GameType;
use crate::player::Player;

pub mod answers;
pub mod test_input;

verus! {

/// Answers given by an input handler, each list first to last: to the requests for an
/// action, for a raise amount and for cards to replace.
pub struct AnswerLog {
    pub actions: Seq<Option<ActionOption>>,
    pub raises: Seq<Option<u32>>,
    pub replacements: Seq<Option<Seq<Card>>>,
}

/// The cards of an answer to a request for cards to replace, as values.
pub open spec fn cards_of(r: Option<Vec<Card>>) -> Option<Seq<Card>> {
    match r {
        Some(v) => Some(v@),
        None => None,
    }
}

/// Input handling: how the game asks players for their choices and shows them the table.
///
/// The methods that ask for a choice return `None` when no answer can be had (a scripted
/// input that has run out, for example); the rules then stop with an error. Nothing is
/// assumed of what an implementation answers: the rules check every answer themselves.
pub trait Input: Sized {
    /// A new input handler.
    fn new() -> Self;

    /// Ask the user to create a username.
    fn request_username(&mut self) -> Option<String>;

    /// Pick which poker variation to play.
    fn input_variation(&mut self) -> Option<GameType>;

    /// Offer a list of available actions to the player, and return the action option that
    /// the player has chosen.
    fn input_action_options(&mut self, possible_actions: Vec<ActionOption>, player: &Player) -> Option<ActionOption>;

    /// Ask the player to pick an amount to raise by, at most `limit`.
    fn request_raise_amount(&mut self, limit: u32, player: &Player) -> Option<u32>;

    /// Ask the player to choose any number of their cards to be replaced, and return the
    /// cards chosen.
    fn request_replace_cards(&mut self, player: &Player) -> Option<Vec<Card>>;

    /// Show the player their cards (up and down).
    fn display_player_cards_to_player(&self, player: &Player);

    /// Show the player the community cards.
    fn display_community_cards_to_player(&self, community_cards: &Vec<Card>, player: &Player);

    /// Show the player the other players' up cards; the player themselves is not among
    /// `other_players`.
    fn display_other_player_up_cards_to_player(&self, other_players: &Vec<Player>, player: &Player);

    /// Show whose turn it is.
    fn display_current_player(&self, player: &Player);

    /// Announce the winners of a round to all players.
    fn announce_winner(&self, winners: &Vec<Player>, all_players: &Vec<Player>);

    /// Show the amount currently in the pot to all players.
    fn display_pot(&self, pot_amount: u32, all_players: &Vec<Player>);

    /// Show every player's balance.
    fn display_player_balances(&self, players: &Vec<Player>);
}

} // verus!
