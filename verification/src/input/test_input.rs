use vstd::prelude::*;

use crate::action_option::ActionOption;
use crate::card::Card;
use crate::game_type::GameType;
use crate::player::Player;
use super::Input;

verus! {

/// The answers of a scripted input, each list with the next answer last.
pub struct TestInputView {
    pub player_names: Seq<Seq<char>>,
    pub game_variation: Option<GameType>,
    pub action_option_selections: Seq<ActionOption>,
    pub raise_amounts: Seq<u32>,
    pub card_replace_selections: Seq<Seq<usize>>,
}

/// A scripted implementation of `Input`: the answers are set ahead of time, and each
/// request takes the next one. The methods that only display something do nothing.
/// This allows testing the rules of a game with a chosen sequence of events.
pub struct TestInput {
    player_names: Vec<String>,
    game_variation: Option<GameType>,
    action_option_selections: Vec<ActionOption>,
    raise_amounts: Vec<u32>,
    card_replace_selections: Vec<Vec<usize>>,
}

impl View for TestInput {
    type V = TestInputView;

    closed spec fn view(&self) -> TestInputView {
        TestInputView {
            player_names: self.player_names@.map_values(|s: String| s@),
            game_variation: self.game_variation,
            action_option_selections: self.action_option_selections@,
            raise_amounts: self.raise_amounts@,
            card_replace_selections: self.card_replace_selections@.map_values(|v: Vec<usize>| v@),
        }
    }
}

/// Reverses a vector in place, so that popping from it gives the items in their order.
fn reversed<T>(v: Vec<T>) -> (r: Vec<T>)
    ensures
        r@ == v@.reverse(),
{
    let mut v = v;
    let ghost orig = v@;
    let mut r: Vec<T> = Vec::new();
    while v.len() > 0
        invariant
            v@ == orig.subrange(0, v@.len() as int),
            r@ == orig.subrange(v@.len() as int, orig.len() as int).reverse(),
            v@.len() <= orig.len(),
        decreases v@.len(),
    {
        let ghost n = v@.len();
        let x = v.pop().unwrap();
        r.push(x);
        assert(r@ =~= orig.subrange(n - 1, orig.len() as int).reverse());
    }
    assert(orig.subrange(0, orig.len() as int) =~= orig);
    r
}

impl Input for TestInput {
    fn new() -> (t: TestInput)
        ensures
            t@.player_names.len() == 0,
            t@.game_variation is None,
            t@.action_option_selections.len() == 0,
            t@.raise_amounts.len() == 0,
            t@.card_replace_selections.len() == 0,
    {
        let t = TestInput {
            player_names: Vec::new(),
            game_variation: None,
            action_option_selections: Vec::new(),
            raise_amounts: Vec::new(),
            card_replace_selections: Vec::new(),
        };
        assert(t@.player_names =~= Seq::<Seq<char>>::empty());
        assert(t@.card_replace_selections =~= Seq::<Seq<usize>>::empty());
        t
    }

    fn request_username(&mut self) -> (r: Option<String>)
        ensures
            old(self)@.player_names.len() == 0 ==> r is None && final(self)@ == old(self)@,
            old(self)@.player_names.len() > 0 ==> (r matches Some(s) && s@ == old(self)@.player_names.last()
                && final(self)@ == (TestInputView {
                player_names: old(self)@.player_names.drop_last(),
                ..old(self)@
            })),
    {
        let r = self.player_names.pop();
        proof {
            if old(self)@.player_names.len() > 0 {
                assert(self@.player_names =~= old(self)@.player_names.drop_last());
            } else {
                assert(self@.player_names =~= old(self)@.player_names);
            }
        }
        r
    }

    fn input_variation(&mut self) -> (r: Option<GameType>)
        ensures
            r == old(self)@.game_variation,
            final(self)@ == old(self)@,
    {
        self.game_variation
    }

    fn input_action_options(&mut self, _possible_actions: Vec<ActionOption>, _player: &Player) -> (r: Option<ActionOption>)
        ensures
            old(self)@.action_option_selections.len() == 0 ==> r is None && final(self)@ == old(self)@,
            old(self)@.action_option_selections.len() > 0 ==> r == Some(old(self)@.action_option_selections.last())
                && final(self)@ == (TestInputView {
                action_option_selections: old(self)@.action_option_selections.drop_last(),
                ..old(self)@
            }),
    {
        self.action_option_selections.pop()
    }

    fn request_raise_amount(&mut self, _limit: u32, _player: &Player) -> (r: Option<u32>)
        ensures
            old(self)@.raise_amounts.len() == 0 ==> r is None && final(self)@ == old(self)@,
            old(self)@.raise_amounts.len() > 0 ==> r == Some(old(self)@.raise_amounts.last()) && final(self)@
                == (TestInputView { raise_amounts: old(self)@.raise_amounts.drop_last(), ..old(self)@ }),
    {
        self.raise_amounts.pop()
    }

    fn request_replace_cards(&mut self, player: &Player) -> (r: Option<Vec<Card>>)
        ensures
            old(self)@.card_replace_selections.len() == 0 ==> r is None,
            old(self)@.card_replace_selections.len() > 0 ==> final(self)@ == (TestInputView {
                card_replace_selections: old(self)@.card_replace_selections.drop_last(),
                ..old(self)@
            }),
            r matches Some(cards) ==> {
                let sel = old(self)@.card_replace_selections.last();
                &&& old(self)@.card_replace_selections.len() > 0
                &&& cards@.len() == sel.len()
                &&& forall|k: int| 0 <= k < sel.len() ==> sel[k] < player@.cards.len()
                    && #[trigger] cards@[k] == player@.cards[sel[k] as int]
            },
            (old(self)@.card_replace_selections.len() > 0 && r is None) ==> exists|k: int|
                0 <= k < old(self)@.card_replace_selections.last().len()
                    && #[trigger] old(self)@.card_replace_selections.last()[k] >= player@.cards.len(),
    {
        let ghost before = self@;
        let selection = match self.card_replace_selections.pop() {
            Some(s) => s,
            None => {
                return None;
            },
        };
        proof {
            assert(self@.card_replace_selections =~= before.card_replace_selections.drop_last());
            assert(selection@ == before.card_replace_selections.last());
        }
        let held = player.cards();
        let mut chosen: Vec<Card> = Vec::new();
        let mut k: usize = 0;
        while k < selection.len()
            invariant
                k <= selection@.len(),
                held@ == player@.cards,
                before == old(self)@,
                before.card_replace_selections.len() > 0,
                selection@ == before.card_replace_selections.last(),
                self@ == (TestInputView {
                    card_replace_selections: before.card_replace_selections.drop_last(),
                    ..before
                }),
                chosen@.len() == k,
                forall|j: int| 0 <= j < k ==> (#[trigger] selection@[j]) < held@.len(),
                forall|j: int| 0 <= j < k ==> #[trigger] chosen@[j] == held@[selection@[j] as int],
            decreases selection@.len() - k,
        {
            let index = selection[k];
            if index >= held.len() {
                assert(before.card_replace_selections.last()[k as int] >= player@.cards.len());
                return None;
            }
            let c = held[index];
            let ghost prev = chosen@;
            chosen.push(c);
            proof {
                assert forall|j: int| 0 <= j < k + 1 implies (#[trigger] selection@[j]) < held@.len() && chosen@[j]
                    == held@[selection@[j] as int] by {
                    if j < k {
                        assert(chosen@[j] == prev[j]);
                    } else {
                        assert(selection@[j] == index);
                        assert(chosen@[j] == c);
                    }
                }
            }
            k = k + 1;
        }
        Some(chosen)
    }

    fn display_player_cards_to_player(&self, _player: &Player) {
    }

    fn display_community_cards_to_player(&self, _community_cards: &Vec<Card>, _player: &Player) {
    }

    fn display_other_player_up_cards_to_player(&self, _other_players: &Vec<Player>, _player: &Player) {
    }

    fn display_current_player(&self, _player: &Player) {
    }

    fn announce_winner(&self, _winners: &Vec<Player>, _all_players: &Vec<Player>) {
    }

    fn display_pot(&self, _pot_amount: u32, _all_players: &Vec<Player>) {
    }

    fn display_player_balances(&self, _players: &Vec<Player>) {
    }
}

impl TestInput {
    /// Sets the player names to answer, in the order they will be asked for.
    pub fn set_player_names(&mut self, player_names: Vec<String>)
        ensures
            final(self)@ == (TestInputView {
                player_names: player_names@.map_values(|s: String| s@).reverse(),
                ..old(self)@
            }),
    {
        let names = reversed(player_names);
        self.player_names = names;
        assert(self@.player_names =~= player_names@.map_values(|s: String| s@).reverse());
    }

    /// Sets the game variation to answer.
    pub fn set_game_variation(&mut self, game_variation: GameType)
        ensures
            final(self)@ == (TestInputView { game_variation: Some(game_variation), ..old(self)@ }),
    {
        self.game_variation = Some(game_variation);
    }

    /// Sets the action options to choose, in the order they will be asked for.
    pub fn set_action_option_selections(&mut self, action_option_selections: Vec<ActionOption>)
        ensures
            final(self)@ == (TestInputView {
                action_option_selections: action_option_selections@.reverse(),
                ..old(self)@
            }),
    {
        self.action_option_selections = reversed(action_option_selections);
    }

    /// Sets the raise amounts to answer, in the order they will be asked for.
    pub fn set_raise_amounts(&mut self, raise_amounts: Vec<u32>)
        ensures
            final(self)@ == (TestInputView { raise_amounts: raise_amounts@.reverse(), ..old(self)@ }),
    {
        self.raise_amounts = reversed(raise_amounts);
    }

    /// Sets the cards to replace, by their positions in the player's hand, in the order they
    /// will be asked for.
    pub fn set_card_replace_selections(&mut self, card_replace_selections: Vec<Vec<usize>>)
        ensures
            final(self)@ == (TestInputView {
                card_replace_selections: card_replace_selections@.map_values(|v: Vec<usize>| v@).reverse(),
                ..old(self)@
            }),
    {
        self.card_replace_selections = reversed(card_replace_selections);
        assert(self@.card_replace_selections =~= card_replace_selections@.map_values(|v: Vec<usize>| v@).reverse());
    }
}

} // verus!
