use poker_project_rustaceans::action_option::ActionOption;
use poker_project_rustaceans::card::Card;
use poker_project_rustaceans::game_type::GameType;
use poker_project_rustaceans::input::test_input::TestInput;
use poker_project_rustaceans::player::Player;
use poker_project_rustaceans::rules::texas_holdem::TexasHoldem;
use poker_project_rustaceans::rules::Rules;
use uuid::Uuid;

fn id() -> u128 {
    Uuid::now_v7().as_u128()
}

fn three_players(initial_balance: usize) -> Vec<Player> {
    vec![
        Player::new(id(), "player".to_string(), initial_balance),
        Player::new(id(), "player".to_string(), initial_balance),
        Player::new(id(), "player".to_string(), initial_balance),
    ]
}

fn script(texas_holdem: &mut TexasHoldem<TestInput>, actions: Vec<ActionOption>, raises: Vec<u32>) {
    let input = texas_holdem.input_mut();
    input.set_player_names(vec!["p1".to_string(), "p2".to_string(), "p3".to_string()]);
    input.set_game_variation(GameType::SevenCardStud);
    input.set_action_option_selections(actions);
    input.set_card_replace_selections(vec![]);
    input.set_raise_amounts(raises);
}

fn check_dealt(texas_holdem: &TexasHoldem<TestInput>, per_player: usize) {
    let mut cards: Vec<Card> = Vec::new();
    for player in texas_holdem.players().clone() {
        let mut player = player;
        assert_eq!(player.peek_at_cards().len(), per_player);
        assert_eq!(player.peek_at_cards().iter().filter(|card| card.is_face_up()).count(), 0);
        assert_eq!(player.peek_at_cards().iter().filter(|card| !card.is_face_up()).count(), per_player);
        let temp_cards = player.return_cards();
        // make sure that cards didn't somehow get duplicated, that cards are in fact unique
        for card in temp_cards.iter() {
            assert!(!cards.contains(card));
        }
        cards.extend(temp_cards);
    }
}

#[test]
fn texas_holdem_new() {
    let texas_holdem = TexasHoldem::<TestInput>::new(1000, 1, id());

    assert_eq!(texas_holdem.deck().size(), 52);
    assert_eq!(texas_holdem.dealer_position(), 0);
    assert_eq!(texas_holdem.current_player_index(), 0);
    assert_eq!(texas_holdem.pot().get_call_amount(), 0);
    assert_eq!(texas_holdem.pot().get_player_ids().len(), 0);
    assert_eq!(texas_holdem.players().len(), 0);
}

#[test]
fn texas_holdem_try_play_round_one_player() {
    let mut texas_holdem = TexasHoldem::<TestInput>::new(1000, 1, id());
    let players = vec![Player::new(id(), "player".to_string(), 1000)];

    assert!(texas_holdem.play_round(players).is_err_and(|err| err.0 == "Cannot start a game with less than 2 players"));
}

#[test]
fn texas_holdem_increment_dealer_position() {
    let mut texas_holdem = TexasHoldem::<TestInput>::new(1000, 1, id());
    let players = vec![
        Player::new(id(), "player".to_string(), 1000),
        Player::new(id(), "player".to_string(), 1000),
    ];
    texas_holdem.set_players(players);
    assert_eq!(texas_holdem.dealer_position(), 0);
    texas_holdem.increment_dealer_position();
    assert_eq!(texas_holdem.dealer_position(), 1);
    texas_holdem.increment_dealer_position();
    assert_eq!(texas_holdem.dealer_position(), 0);
    let mut players = texas_holdem.players().clone();
    players.pop();
    texas_holdem.set_players(players);
    texas_holdem.increment_dealer_position();
    assert_eq!(texas_holdem.dealer_position(), 0);
}

#[test]
fn texas_holdem_increment_player_index() {
    let mut texas_holdem = TexasHoldem::<TestInput>::new(1000, 1, id());
    let players = vec![
        Player::new(id(), "player".to_string(), 1000),
        Player::new(id(), "player".to_string(), 1000),
    ];
    texas_holdem.set_players(players);
    assert_eq!(texas_holdem.current_player_index(), 0);
    texas_holdem.increment_player_index();
    assert_eq!(texas_holdem.current_player_index(), 1);
    texas_holdem.increment_player_index();
    assert_eq!(texas_holdem.current_player_index(), 0);
    let mut players = texas_holdem.players().clone();
    players.pop();
    texas_holdem.set_players(players);
    texas_holdem.increment_player_index();
    assert_eq!(texas_holdem.current_player_index(), 0);
}

#[test]
fn texas_holdem_deal_initial_cards() {
    let mut texas_holdem = TexasHoldem::<TestInput>::new(1000, 1, id());
    texas_holdem.set_players(three_players(1000));
    texas_holdem.deal_initial_cards().unwrap();
    check_dealt(&texas_holdem, 2);
    assert_eq!(texas_holdem.deck().size(), 52 - 6);
}

#[test]
fn texas_holdem_deal_down_cards() {
    let mut texas_holdem = TexasHoldem::<TestInput>::new(1000, 1, id());
    texas_holdem.set_players(three_players(1000));
    texas_holdem.deal_down_cards().unwrap();
    check_dealt(&texas_holdem, 1);
    assert_eq!(texas_holdem.deck().size(), 52 - 3);
}

#[test]
fn texas_holdem_play_blinds() {
    let mut texas_holdem = TexasHoldem::<TestInput>::new(1000, 2, id());
    let initial_balance = 1000;
    texas_holdem.set_players(three_players(initial_balance));
    texas_holdem.play_blinds().unwrap();
    assert_eq!(texas_holdem.pot().get_call_amount(), 2);
    assert_eq!(texas_holdem.current_player_index(), 2);
    assert_eq!(texas_holdem.players().get(0).unwrap().balance(), initial_balance - 1);
    assert_eq!(texas_holdem.players().get(1).unwrap().balance(), initial_balance - 2);
}

#[test]
fn texas_holdem_play_phase_one_check_only() {
    let big_blind_amount = 2;
    let mut texas_holdem = TexasHoldem::<TestInput>::new(1000, big_blind_amount, id());
    let initial_balance = 1000;
    texas_holdem.set_players(three_players(initial_balance));
    script(&mut texas_holdem, vec![ActionOption::Call, ActionOption::Call, ActionOption::Check], vec![]);

    texas_holdem.play_blinds().unwrap();
    texas_holdem.play_phase_one().unwrap();

    assert_eq!(texas_holdem.pot().get_call_amount() as u32, big_blind_amount);
    assert_eq!(texas_holdem.current_player_index(), 2);
    for player in texas_holdem.players().iter() {
        assert_eq!(player.balance(), initial_balance - big_blind_amount as usize);
    }
}

#[test]
fn texas_holdem_play_phase_one_with_raises() {
    let big_blind_amount = 2;
    let mut texas_holdem = TexasHoldem::<TestInput>::new(1000, big_blind_amount, id());
    let initial_balance = 1000;
    texas_holdem.set_players(three_players(initial_balance));
    script(
        &mut texas_holdem,
        vec![
            ActionOption::Call,
            ActionOption::Call,
            ActionOption::Raise,
            ActionOption::Call,
            ActionOption::Raise,
            ActionOption::Call,
            ActionOption::Call,
        ],
        vec![100 - big_blind_amount, 100],
    );

    texas_holdem.play_blinds().unwrap();
    texas_holdem.play_phase_one().unwrap();

    assert_eq!(texas_holdem.pot().get_call_amount() as u32, 200);
    assert_eq!(texas_holdem.current_player_index(), 0);
    for player in texas_holdem.players().iter() {
        assert_eq!(player.balance(), initial_balance - 200);
    }
}

#[test]
fn texas_holdem_play_phase_one_with_folds() {
    let big_blind_amount = 2;
    let mut texas_holdem = TexasHoldem::<TestInput>::new(1000, big_blind_amount, id());
    let initial_balance = 1000;
    texas_holdem.set_players(three_players(initial_balance));
    script(
        &mut texas_holdem,
        vec![
            ActionOption::Fold, // player 2 folds
            ActionOption::Call,
            ActionOption::Raise,
            ActionOption::Raise,
            ActionOption::Fold, // player 1 folds, only player 0 remains
        ],
        vec![100 - big_blind_amount, 100],
    );

    texas_holdem.play_blinds().unwrap();
    texas_holdem.play_phase_one().unwrap();

    assert_eq!(texas_holdem.pot().get_call_amount() as u32, 200);
    assert_eq!(texas_holdem.players().get(0).unwrap().balance(), initial_balance - 200); // call, raise to 200, then fold
    assert_eq!(texas_holdem.players().get(1).unwrap().balance(), initial_balance - 100); // bring in, raise to 100, then fold
    assert_eq!(texas_holdem.players().get(2).unwrap().balance(), initial_balance); // immediately fold
}

#[test]
fn texas_holdem_play_all_folds_auto_win() {
    let big_blind_amount = 2;
    let mut texas_holdem = TexasHoldem::<TestInput>::new(1000, big_blind_amount, id());
    let initial_balance = 1000;
    texas_holdem.set_players(three_players(initial_balance));
    script(
        &mut texas_holdem,
        vec![
            ActionOption::Fold,
            ActionOption::Fold,
            ActionOption::Raise, // this should not be allowed to happen as this player (0) should automatically win
        ],
        vec![100 - big_blind_amount],
    );

    texas_holdem.play_blinds().unwrap();
    texas_holdem.play_phase_one().unwrap();

    assert_eq!(texas_holdem.pot().get_call_amount() as u32, big_blind_amount);
    assert_eq!(texas_holdem.players().get(0).unwrap().balance(), initial_balance - big_blind_amount as usize / 2); // pays small blind, then immediately fold
    assert_eq!(texas_holdem.players().get(1).unwrap().balance(), initial_balance - big_blind_amount as usize); // pays big blind, should not have the opportunity to raise
    assert_eq!(texas_holdem.players().get(2).unwrap().balance(), initial_balance); // immediately fold
}

#[test]
fn texas_holdem_play_full_round_all_checks_and_calls() {
    let big_blind_amount = 2;
    let mut texas_holdem = TexasHoldem::<TestInput>::new(1000, big_blind_amount, id());
    let initial_balance = 1000;
    texas_holdem.set_players(three_players(initial_balance));
    script(
        &mut texas_holdem,
        vec![
            ActionOption::Call, // phase 1
            ActionOption::Call,
            ActionOption::Check,
            ActionOption::Check, // phase 2
            ActionOption::Check,
            ActionOption::Check,
            ActionOption::Check, // phase 3
            ActionOption::Check,
            ActionOption::Check,
            ActionOption::Check, // phase 4
            ActionOption::Check,
            ActionOption::Check,
        ],
        vec![],
    );

    texas_holdem.deal_initial_cards().unwrap();
    texas_holdem.play_blinds().unwrap();
    texas_holdem.play_phase_one().unwrap();
    texas_holdem.deal_flop_cards().unwrap();
    texas_holdem.play_phase_two().unwrap();
    texas_holdem.deal_community_card().unwrap();
    texas_holdem.play_phase_three().unwrap();
    texas_holdem.deal_community_card().unwrap();
    texas_holdem.play_phase_four().unwrap();
    assert_eq!(texas_holdem.pot().get_call_amount() as u32, big_blind_amount);
    assert_eq!(texas_holdem.players().get(0).unwrap().balance(), initial_balance - big_blind_amount as usize);
    assert_eq!(texas_holdem.players().get(1).unwrap().balance(), initial_balance - big_blind_amount as usize);
    assert_eq!(texas_holdem.players().get(2).unwrap().balance(), initial_balance - big_blind_amount as usize);
    assert_eq!(texas_holdem.community_cards().len(), 5);
    texas_holdem.showdown().unwrap();
    let total: usize = texas_holdem.players().iter().map(|p| p.balance()).sum();
    assert_eq!(total, 3 * initial_balance);
}

#[test]
fn texas_holdem_full_round_gives_players_back() {
    let mut texas_holdem = TexasHoldem::<TestInput>::new(1000, 2, id());
    script(
        &mut texas_holdem,
        vec![
            ActionOption::Call,
            ActionOption::Call,
            ActionOption::Check,
            ActionOption::Check,
            ActionOption::Check,
            ActionOption::Check,
            ActionOption::Check,
            ActionOption::Check,
            ActionOption::Check,
            ActionOption::Check,
            ActionOption::Check,
            ActionOption::Check,
        ],
        vec![],
    );
    let players = three_players(1000);
    let back = texas_holdem.play_round(players).unwrap();
    assert_eq!(back.len(), 3);
    let total: usize = back.iter().map(|p| p.balance()).sum();
    assert!(total <= 3000);
    for p in back.iter() {
        assert_eq!(p.cards().len(), 0);
    }
    assert_eq!(texas_holdem.deck().size(), 52);
    assert_eq!(texas_holdem.community_cards().len(), 0);
}

#[test]
fn texas_holdem_no_community_card_when_fewer_than_two_can_bet() {
    let mut texas_holdem = TexasHoldem::<TestInput>::new(1000, 2, id());
    texas_holdem.set_players(vec![
        Player::new(id(), "player".to_string(), 0),
        Player::new(id(), "player".to_string(), 0),
        Player::new(id(), "player".to_string(), 1000),
    ]);
    texas_holdem.deal_community_card().unwrap();
    assert_eq!(texas_holdem.community_cards().len(), 0);
    assert_eq!(texas_holdem.deck().size(), 52);
    texas_holdem.deal_flop_cards().unwrap();
    assert_eq!(texas_holdem.community_cards().len(), 0);
}

#[test]
fn texas_holdem_community_card_when_two_can_bet() {
    let mut texas_holdem = TexasHoldem::<TestInput>::new(1000, 2, id());
    texas_holdem.set_players(vec![
        Player::new(id(), "player".to_string(), 0),
        Player::new(id(), "player".to_string(), 1000),
        Player::new(id(), "player".to_string(), 1000),
    ]);
    texas_holdem.deal_community_card().unwrap();
    assert_eq!(texas_holdem.community_cards().len(), 1);
    assert!(texas_holdem.community_cards()[0].is_face_up());
    assert_eq!(texas_holdem.deck().size(), 51);
}
