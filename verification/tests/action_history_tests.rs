use poker_project_rustaceans::action::Action;
use poker_project_rustaceans::action_history::{ActionHistory, PlayerAction};
use poker_project_rustaceans::player::Player;
use uuid::Uuid;

fn player(balance: usize) -> Player {
    Player::new(Uuid::now_v7().as_u128(), "player".to_string(), balance)
}

#[test]
fn constructor() {
    let _ = ActionHistory::new();
}

#[test]
fn push() {
    let mut action_history = ActionHistory::new();
    assert_eq!(action_history.get_history().len(), 0);
    let player = player(1000);
    let action = Action::Fold;
    let player_action = PlayerAction::new(&player, action.clone());
    action_history.push(player_action);
    assert_eq!(action_history.get_history().len(), 1);
    let stored = action_history.get_history().get(0).unwrap();
    assert_eq!(stored.player().account_id(), player.account_id());
    assert_eq!(stored.action(), action);
}

#[test]
fn players() {
    let mut action_history = ActionHistory::new();
    assert_eq!(action_history.players().len(), 0);
    let player = player(1000);
    let action = Action::Fold;
    let player_action = PlayerAction::new(&player, action.clone());
    action_history.push(player_action);
    assert_eq!(action_history.players().len(), 1);
    assert_eq!(action_history.players()[0].account_id(), player.account_id());
}

#[test]
fn player_has_folded() {
    let mut action_history = ActionHistory::new();
    let player = player(1000);
    assert_eq!(action_history.player_has_folded(&player), false);
    let action = Action::Check;
    let player_action = PlayerAction::new(&player, action.clone());
    action_history.push(player_action);
    assert_eq!(action_history.player_has_folded(&player), false);
    let action = Action::Fold;
    let player_action = PlayerAction::new(&player, action.clone());
    action_history.push(player_action);
    assert_eq!(action_history.player_has_folded(&player), true);
}

#[test]
fn another_players_fold_is_not_this_players() {
    let a = player(1000);
    let b = player(1000);
    let mut action_history = ActionHistory::new();
    action_history.push(PlayerAction::new(&a, Action::Fold));
    action_history.push(PlayerAction::new(&b, Action::Check));
    action_history.push(PlayerAction::new(&a, Action::Check));
    assert!(action_history.player_has_folded(&a));
    assert!(!action_history.player_has_folded(&b));
    let players = action_history.players();
    assert_eq!(players.len(), 2);
    assert_eq!(players[0].account_id(), a.account_id());
    assert_eq!(players[1].account_id(), b.account_id());
}

#[test]
fn current_bet_amount_is_the_largest_stake() {
    let a = player(1000);
    let b = player(1000);
    let mut action_history = ActionHistory::new();
    assert_eq!(action_history.current_bet_amount(), 0);
    action_history.push(PlayerAction::new(&a, Action::Ante(2)));
    action_history.push(PlayerAction::new(&b, Action::Raise(10)));
    action_history.push(PlayerAction::new(&a, Action::Call));
    assert_eq!(action_history.current_bet_amount(), 10);
    action_history.push(PlayerAction::new(&b, Action::AllIn(7)));
    assert_eq!(action_history.current_bet_amount(), 10);
}
