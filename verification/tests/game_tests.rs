use poker_project_rustaceans::action_option::ActionOption;
use poker_project_rustaceans::card::{Card, Rank, Suit};
use poker_project_rustaceans::game::Game;
use poker_project_rustaceans::game_type::GameType;
use poker_project_rustaceans::input::test_input::TestInput;
use poker_project_rustaceans::lobby::{Lobby, LobbyStatus};
use poker_project_rustaceans::player::Player;
use poker_project_rustaceans::rules::five_card_draw::FiveCardDraw;
use poker_project_rustaceans::rules::seven_card_stud::SevenCardStud;
use poker_project_rustaceans::rules::texas_holdem::TexasHoldem;
use poker_project_rustaceans::rules::{Rules, RulesEnum};
use poker_project_rustaceans::server::http_requests::{LobbyAction, LobbyActionType};
use poker_project_rustaceans::server::new_lobby_id;
use uuid::Uuid;

fn id() -> u128 {
    Uuid::now_v7().as_u128()
}

#[test]
fn game_add_find_and_remove_players() {
    let mut game = Game::<FiveCardDraw<TestInput>>::new(1000, 2);
    let (a, b, c) = (id(), id(), id());
    game.add_player(Player::new(a, "a".to_string(), 100)).unwrap();
    game.add_player(Player::new(b, "b".to_string(), 100)).unwrap();
    game.add_player(Player::new(c, "c".to_string(), 100)).unwrap();
    assert_eq!(game.find_player_by_id(b), Ok(1));
    assert_eq!(game.find_player_by_id(id()), Err(()));

    let again = game.add_player(Player::new(b, "b again".to_string(), 5));
    assert_eq!(again, Err("Player already in players for this game".to_string()));
    assert_eq!(game.players().len(), 3);

    // the last player takes the seat of the one who leaves
    game.remove_player(a).unwrap();
    let names: Vec<&str> = game.players().iter().map(|p| p.name()).collect();
    assert_eq!(names, vec!["c", "b"]);
    assert_eq!(game.remove_player(a), Err("Could not remove player from game with that ID.".to_string()));
}

#[test]
fn game_without_players_plays_no_round() {
    let mut game = Game::<TexasHoldem<TestInput>>::new(1000, 10);
    game.add_player(Player::new(id(), "poor".to_string(), 9)).unwrap();
    game.add_player(Player::new(id(), "poorer".to_string(), 0)).unwrap();
    assert_eq!(game.play_game(), Err("Not enough players to start a game!"));
    // players who cannot cover the minimum bet leave the game
    assert_eq!(game.players().len(), 0);
}

#[test]
fn game_drops_players_short_of_the_minimum_bet() {
    let mut game = Game::<FiveCardDraw<TestInput>>::new(1000, 10);
    let rich = id();
    game.add_player(Player::new(rich, "rich".to_string(), 500)).unwrap();
    game.add_player(Player::new(id(), "poor".to_string(), 9)).unwrap();
    // one player is left, too few for a round: the round is refused and the player kept
    assert_eq!(game.play_game(), Err("Cannot start a game with less than 2 players"));
    assert_eq!(game.players().len(), 1);
    assert_eq!(game.players()[0].account_id(), rich);
    assert_eq!(game.players()[0].balance(), 500);
}

#[test]
fn game_plays_a_round_and_keeps_the_players() {
    let mut game = Game::<SevenCardStud<TestInput>>::new(1000, 1);
    game.add_player(Player::new(id(), "a".to_string(), 100)).unwrap();
    game.add_player(Player::new(id(), "b".to_string(), 100)).unwrap();
    // the scripted input gives no answers: the round stops at the first bet
    let r = game.play_game();
    assert!(r.is_err());
    assert_eq!(game.players().len(), 2);
    let total: usize = game.players().iter().map(|p| p.balance()).sum();
    assert!(total <= 200);
    for p in game.players() {
        assert_eq!(p.cards().len(), 0);
    }
}

#[test]
fn lobby_new_join_and_leave() {
    let mut lobby = Lobby::<TestInput>::new(7, GameType::TexasHoldem);
    assert_eq!(lobby.id(), 7);
    assert_eq!(lobby.status(), LobbyStatus::InLobby);
    assert_eq!(lobby.game_type(), GameType::TexasHoldem);
    assert!(matches!(lobby.rules(), RulesEnum::TexasHoldem(_)));
    assert_eq!(lobby.rules().to_game_type(), GameType::TexasHoldem);
    let (a, b) = (id(), id());
    assert_eq!(lobby.join_user(a), Ok(()));
    assert_eq!(lobby.join_user(b), Ok(()));
    assert_eq!(lobby.join_user(a), Err(()));
    assert_eq!(lobby.count_users(), 2);
    assert_eq!(lobby.get_user(b), Some(&b));
    assert_eq!(lobby.users(), &vec![a, b]);
    assert_eq!(lobby.leave_user(a), Ok(()));
    assert_eq!(lobby.leave_user(a), Err(()));
    assert_eq!(lobby.get_user(a), None);
    assert_eq!(lobby.users(), &vec![b]);
}

#[test]
fn lobby_start_game_names_players_by_their_ids() {
    let mut lobby = Lobby::<TestInput>::new(1, GameType::FiveCardDraw);
    let (a, b) = (id(), id());
    lobby.join_user(a).unwrap();
    lobby.join_user(b).unwrap();
    lobby.start_game();
    assert_eq!(lobby.status(), LobbyStatus::InGame);
    let active = lobby.active_players();
    assert_eq!(active.len(), 2);
    assert_eq!(active[0].account_id(), a);
    assert_eq!(active[0].name(), format!("{:032x}", a));
    assert_eq!(active[0].name(), Uuid::from_u128(a).simple().to_string());
    assert_eq!(active[1].name(), format!("{:032x}", b));
    assert_eq!(active[1].balance(), 1000);

    let info = lobby.info();
    assert_eq!(info.lobby_id, 1);
    assert_eq!(info.status, LobbyStatus::InGame);
    assert_eq!(info.users.len(), 2);
    assert_eq!(info.users[1].user_id, format!("{:032x}", b));
    assert!(info.users[0].is_active && info.users[1].is_active);

    let item = lobby.list_item();
    assert_eq!(item.user_count, 2);
    assert_eq!(item.game_type, GameType::FiveCardDraw);
}

#[test]
fn lobby_info_before_a_game() {
    let mut lobby = Lobby::<TestInput>::new(3, GameType::SevenCardStud);
    lobby.join_user(0xabc).unwrap();
    let info = lobby.info();
    assert_eq!(info.users[0].user_id, "00000000000000000000000000000abc");
    assert!(!info.users[0].is_active);
    assert_eq!(info.game_type, GameType::SevenCardStud);
}

#[test]
fn new_lobby_ids() {
    assert_eq!(new_lobby_id(&vec![]), 1);
    assert_eq!(new_lobby_id(&vec![1, 4, 2]), 5);
    assert_eq!(new_lobby_id(&vec![3]), 4);
}

#[test]
fn lobby_action_user() {
    let id = Uuid::now_v7();
    let action = LobbyAction {
        lobby_id: 1,
        action_type: LobbyActionType::Join,
        user_id: id.simple().to_string(),
        game_type: GameType::FiveCardDraw,
    };
    assert_eq!(action.user(), Some(id.as_u128()));
    let hyphenated = LobbyAction { user_id: id.hyphenated().to_string(), ..action.clone() };
    assert_eq!(hyphenated.user(), Some(id.as_u128()));
    let bad = LobbyAction { user_id: "not a uuid".to_string(), ..action };
    assert_eq!(bad.user(), None);
}

#[test]
fn seven_card_stud_unrankable_up_cards() {
    let mut stud = SevenCardStud::<TestInput>::new(1000, 1, id());
    stud.set_players(vec![Player::new(id(), "a".to_string(), 100), Player::new(id(), "b".to_string(), 100)]);
    for (rank, suit) in [(Rank::King, Suit::Hearts), (Rank::King, Suit::Spades), (Rank::Four, Suit::Hearts), (Rank::Four, Suit::Spades)] {
        stud.deal_card_to_player(0, &Card::new(rank, suit, true), true).unwrap();
    }
    stud.deal_card_to_player(1, &Card::new(Rank::Ace, Suit::Clubs, true), true).unwrap();
    stud.input_mut().set_action_option_selections(vec![ActionOption::Check, ActionOption::Check]);
    // two pairs and no other card among the up cards cannot be ranked as a hand
    assert_eq!(stud.play_phase_two(), Err("The up cards of a player cannot be ranked as a hand"));
}

#[test]
fn game_add_then_remove_gives_the_players_back() {
    let mut game = Game::<TexasHoldem<TestInput>>::new(1000, 2);
    let (a, b, c) = (id(), id(), id());
    game.add_player(Player::new(a, "a".to_string(), 100)).unwrap();
    game.add_player(Player::new(b, "b".to_string(), 100)).unwrap();
    let before: Vec<u128> = game.players().iter().map(|p| p.account_id()).collect();
    game.add_player(Player::new(c, "c".to_string(), 100)).unwrap();
    game.remove_player(c).unwrap();
    let after: Vec<u128> = game.players().iter().map(|p| p.account_id()).collect();
    assert_eq!(before, after);
}

#[test]
fn lobby_join_then_leave_gives_the_users_back() {
    let mut lobby = Lobby::<TestInput>::new(2, GameType::FiveCardDraw);
    let (a, b, c) = (id(), id(), id());
    lobby.join_user(a).unwrap();
    lobby.join_user(b).unwrap();
    let before = lobby.users().clone();
    lobby.join_user(c).unwrap();
    lobby.leave_user(c).unwrap();
    assert_eq!(lobby.users(), &before);
}

#[test]
fn game_is_ready_only_with_own_accounts_and_no_cards() {
    let mut game = Game::<FiveCardDraw<TestInput>>::new(1000, 1);
    assert!(game.is_ready());
    game.add_player(Player::new(id(), "a".to_string(), 100)).unwrap();
    assert!(game.is_ready());
    let mut holding = Player::new(id(), "b".to_string(), 100);
    holding.obtain_card(Card::new(Rank::Two, Suit::Hearts, false));
    game.add_player(holding).unwrap();
    assert!(!game.is_ready());
}
