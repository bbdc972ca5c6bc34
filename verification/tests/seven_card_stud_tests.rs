use poker_project_rustaceans::action_option::ActionOption;
use poker_project_rustaceans::card::{Card, Rank, Suit};
use poker_project_rustaceans::game_type::GameType;
use poker_project_rustaceans::input::test_input::TestInput;
use poker_project_rustaceans::player::Player;
use poker_project_rustaceans::rules::seven_card_stud::SevenCardStud;
use poker_project_rustaceans::rules::Rules;
use uuid::Uuid;

fn id() -> u128 {
    Uuid::now_v7().as_u128()
}

fn three_players(initial_balance: usize) -> Vec<Player> {
    vec![
        Player::new(id(), "player".to_string(), initial_balance),
        Player::new(id(), "player".to_string(), initial_balance),
        Player::new(id(), "player".to_string(), initial_balance),
    ]
}

fn script(seven_card_stud: &mut SevenCardStud<TestInput>, actions: Vec<ActionOption>, raises: Vec<u32>) {
    let input = seven_card_stud.input_mut();
    input.set_player_names(vec!["p1".to_string(), "p2".to_string(), "p3".to_string()]);
    input.set_game_variation(GameType::SevenCardStud);
    input.set_action_option_selections(actions);
    // no cards to replace in seven card stud
    input.set_card_replace_selections(vec![]);
    input.set_raise_amounts(raises);
}

/// Each player holds `up` cards face up and `down` face down, and no card is held twice.
fn check_dealt(seven_card_stud: &SevenCardStud<TestInput>, up: usize, down: usize) {
    let mut cards: Vec<Card> = Vec::new();
    for player in seven_card_stud.players().clone() {
        let mut player = player;
        assert_eq!(player.peek_at_cards().len(), up + down);
        assert_eq!(player.peek_at_cards().iter().filter(|card| card.is_face_up()).count(), up);
        assert_eq!(player.peek_at_cards().iter().filter(|card| !card.is_face_up()).count(), down);
        let temp_cards = player.return_cards();
        // make sure that cards didn't somehow get duplicated, that cards are in fact unique
        for card in temp_cards.iter() {
            assert!(!cards.contains(card));
        }
        cards.extend(temp_cards);
    }
}

/// Manually deal the up cards so we know which player pays the bring-in.
fn deal_known_up_cards(seven_card_stud: &mut SevenCardStud<TestInput>) {
    // this player pays bring in
    seven_card_stud.deal_card_to_player(0, &Card::new(Rank::Two, Suit::Spades, true), true).unwrap();
    // phase one starts on this player
    seven_card_stud.deal_card_to_player(1, &Card::new(Rank::Three, Suit::Spades, true), true).unwrap();
    seven_card_stud.deal_card_to_player(2, &Card::new(Rank::Four, Suit::Spades, true), true).unwrap();
}

#[test]
fn seven_card_stud_new() {
    let seven_card_stud = SevenCardStud::<TestInput>::new(1000, 1, id());

    assert_eq!(seven_card_stud.deck().size(), 52);
    assert_eq!(seven_card_stud.dealer_position(), 0);
    assert_eq!(seven_card_stud.current_player_index(), 0);
    assert_eq!(seven_card_stud.pot().get_call_amount(), 0);
    assert_eq!(seven_card_stud.pot().get_player_ids().len(), 0);
    assert_eq!(seven_card_stud.players().len(), 0);
}

#[test]
fn seven_card_stud_try_play_round_one_player() {
    let mut seven_card_stud = SevenCardStud::<TestInput>::new(1000, 1, id());
    let players = vec![Player::new(id(), "player".to_string(), 1000)];

    assert!(seven_card_stud.play_round(players).is_err_and(|err| err.0 == "Cannot start a game with less than 2 players"));
}

#[test]
fn seven_card_stud_increment_dealer_position() {
    let mut seven_card_stud = SevenCardStud::<TestInput>::new(1000, 1, id());
    let players = vec![Player::new(id(), "player".to_string(), 1000), Player::new(id(), "player".to_string(), 1000)];
    seven_card_stud.set_players(players);
    assert_eq!(seven_card_stud.dealer_position(), 0);
    seven_card_stud.increment_dealer_position();
    assert_eq!(seven_card_stud.dealer_position(), 1);
    seven_card_stud.increment_dealer_position();
    assert_eq!(seven_card_stud.dealer_position(), 0);
    let mut players = seven_card_stud.players().clone();
    players.pop();
    seven_card_stud.set_players(players);
    seven_card_stud.increment_dealer_position();
    assert_eq!(seven_card_stud.dealer_position(), 0);
}

#[test]
fn seven_card_stud_increment_player_index() {
    let mut seven_card_stud = SevenCardStud::<TestInput>::new(1000, 1, id());
    let players = vec![Player::new(id(), "player".to_string(), 1000), Player::new(id(), "player".to_string(), 1000)];
    seven_card_stud.set_players(players);
    assert_eq!(seven_card_stud.current_player_index(), 0);
    seven_card_stud.increment_player_index();
    assert_eq!(seven_card_stud.current_player_index(), 1);
    seven_card_stud.increment_player_index();
    assert_eq!(seven_card_stud.current_player_index(), 0);
    let mut players = seven_card_stud.players().clone();
    players.pop();
    seven_card_stud.set_players(players);
    seven_card_stud.increment_player_index();
    assert_eq!(seven_card_stud.current_player_index(), 0);
}

#[test]
fn seven_card_stud_deal_initial_cards() {
    let mut seven_card_stud = SevenCardStud::<TestInput>::new(1000, 1, id());
    seven_card_stud.set_players(three_players(1000));
    seven_card_stud.deal_initial_cards().unwrap();
    check_dealt(&seven_card_stud, 1, 2);
}

#[test]
fn deal_up_cards() {
    let mut seven_card_stud = SevenCardStud::<TestInput>::new(1000, 1, id());
    seven_card_stud.set_players(three_players(1000));
    seven_card_stud.deal_up_cards().unwrap();
    check_dealt(&seven_card_stud, 1, 0);
}

#[test]
fn seven_card_stud_deal_down_cards() {
    let mut seven_card_stud = SevenCardStud::<TestInput>::new(1000, 1, id());
    seven_card_stud.set_players(three_players(1000));
    seven_card_stud.deal_down_cards().unwrap();
    check_dealt(&seven_card_stud, 0, 1);
}

#[test]
fn deal_initial_cards_up_cards_and_down_cards() {
    let mut seven_card_stud = SevenCardStud::<TestInput>::new(1000, 1, id());
    seven_card_stud.set_players(three_players(1000));
    seven_card_stud.deal_initial_cards().unwrap();
    seven_card_stud.deal_up_cards().unwrap();
    seven_card_stud.deal_up_cards().unwrap();
    seven_card_stud.deal_up_cards().unwrap();
    seven_card_stud.deal_down_cards().unwrap();
    check_dealt(&seven_card_stud, 4, 3);
    assert_eq!(seven_card_stud.deck().size(), 52 - 21);
}

#[test]
fn play_bring_in() {
    let bring_in_amount = 1;
    let mut seven_card_stud = SevenCardStud::<TestInput>::new(1000, bring_in_amount, id());
    let initial_balance = 1000;
    seven_card_stud.set_players(three_players(initial_balance));
    seven_card_stud.deal_initial_cards().unwrap();
    seven_card_stud.play_bring_in().unwrap();
    assert_eq!(seven_card_stud.pot().get_call_amount(), bring_in_amount as usize);
    let players = seven_card_stud.players();
    assert_eq!(players.iter().filter(|player| player.balance() == initial_balance - bring_in_amount as usize).count(), 1);
    assert_eq!(players.iter().filter(|player| player.balance() == initial_balance).count(), 2);
}

#[test]
fn seven_card_stud_play_phase_one_check_only() {
    let bring_in_amount = 1;
    let mut seven_card_stud = SevenCardStud::<TestInput>::new(1000, bring_in_amount, id());
    let initial_balance = 1000;
    seven_card_stud.set_players(three_players(initial_balance));
    script(&mut seven_card_stud, vec![ActionOption::Call, ActionOption::Call, ActionOption::Check], vec![]);

    deal_known_up_cards(&mut seven_card_stud);
    seven_card_stud.play_bring_in().unwrap();
    seven_card_stud.play_phase_one().unwrap();

    assert_eq!(seven_card_stud.pot().get_call_amount(), bring_in_amount as usize);
    assert_eq!(seven_card_stud.current_player_index(), 1);
    for player in seven_card_stud.players().iter() {
        assert_eq!(player.balance(), initial_balance - bring_in_amount as usize);
    }
}

#[test]
fn seven_card_stud_play_phase_one_with_raises() {
    let bring_in_amount = 1;
    let mut seven_card_stud = SevenCardStud::<TestInput>::new(1000, bring_in_amount, id());
    let initial_balance = 1000;
    seven_card_stud.set_players(three_players(initial_balance));
    script(
        &mut seven_card_stud,
        vec![
            ActionOption::Call,
            ActionOption::Call,
            ActionOption::Raise,
            ActionOption::Call,
            ActionOption::Raise,
            ActionOption::Call,
            ActionOption::Call,
        ],
        vec![100 - bring_in_amount, 100],
    );

    deal_known_up_cards(&mut seven_card_stud);
    seven_card_stud.play_bring_in().unwrap();
    seven_card_stud.play_phase_one().unwrap();

    assert_eq!(seven_card_stud.pot().get_call_amount(), 200);
    assert_eq!(seven_card_stud.current_player_index(), 2);
    for player in seven_card_stud.players().iter() {
        assert_eq!(player.balance(), initial_balance - 200);
    }
}

#[test]
fn seven_card_stud_play_phase_one_with_folds() {
    let bring_in_amount = 1;
    let mut seven_card_stud = SevenCardStud::<TestInput>::new(1000, bring_in_amount, id());
    let initial_balance = 1000;
    seven_card_stud.set_players(three_players(initial_balance));
    script(
        &mut seven_card_stud,
        vec![
            ActionOption::Fold, // player 1 folds
            ActionOption::Call,
            ActionOption::Raise,
            ActionOption::Raise,
            ActionOption::Fold, // player 0 folds, only player 2 remains
        ],
        vec![100 - bring_in_amount, 100],
    );

    deal_known_up_cards(&mut seven_card_stud);
    seven_card_stud.play_bring_in().unwrap();
    seven_card_stud.play_phase_one().unwrap();

    assert_eq!(seven_card_stud.pot().get_call_amount(), 200);
    assert_eq!(seven_card_stud.players().get(0).unwrap().balance(), initial_balance - 100); // bring in, raise to 100, then fold
    assert_eq!(seven_card_stud.players().get(1).unwrap().balance(), initial_balance); // immediately fold
    assert_eq!(seven_card_stud.players().get(2).unwrap().balance(), initial_balance - 200); // call, raise to 200, then fold
}

#[test]
fn seven_card_stud_play_all_folds_auto_win() {
    let bring_in_amount = 1;
    let mut seven_card_stud = SevenCardStud::<TestInput>::new(1000, bring_in_amount, id());
    let initial_balance = 1000;
    seven_card_stud.set_players(three_players(initial_balance));
    script(
        &mut seven_card_stud,
        vec![
            ActionOption::Fold,
            ActionOption::Fold,
            ActionOption::Raise, // this should not be allowed to happen as this player (0) should automatically win
        ],
        vec![100 - bring_in_amount],
    );

    deal_known_up_cards(&mut seven_card_stud);
    seven_card_stud.play_bring_in().unwrap();
    seven_card_stud.play_phase_one().unwrap();

    assert_eq!(seven_card_stud.pot().get_call_amount(), bring_in_amount as usize);
    assert_eq!(seven_card_stud.players().get(0).unwrap().balance(), initial_balance - bring_in_amount as usize); // pays bring in, should not have the opportunity to raise
    assert_eq!(seven_card_stud.players().get(1).unwrap().balance(), initial_balance); // immediately fold
    assert_eq!(seven_card_stud.players().get(2).unwrap().balance(), initial_balance); // immediately fold
}

fn all_checks_and_calls() -> Vec<ActionOption> {
    vec![
        ActionOption::Call, // phase 1
        ActionOption::Call,
        ActionOption::Check,
        ActionOption::Check, // phase 2
        ActionOption::Check,
        ActionOption::Check,
        ActionOption::Check, // phase 3
        ActionOption::Check,
        ActionOption::Check,
        ActionOption::Check, // phase 4
        ActionOption::Check,
        ActionOption::Check,
        ActionOption::Check, // phase 5
        ActionOption::Check,
        ActionOption::Check,
    ]
}

#[test]
fn seven_card_stud_play_full_round_all_checks_and_calls() {
    let bring_in_amount = 1;
    let mut seven_card_stud = SevenCardStud::<TestInput>::new(1000, bring_in_amount, id());
    let initial_balance = 1000;
    seven_card_stud.set_players(three_players(initial_balance));
    script(&mut seven_card_stud, all_checks_and_calls(), vec![]);

    seven_card_stud.deal_initial_cards().unwrap();
    seven_card_stud.play_bring_in().unwrap();
    seven_card_stud.play_phase_one().unwrap();
    seven_card_stud.deal_up_cards().unwrap();
    seven_card_stud.play_phase_two().unwrap();
    seven_card_stud.deal_up_cards().unwrap();
    seven_card_stud.play_phase_three().unwrap();
    seven_card_stud.deal_up_cards().unwrap();
    seven_card_stud.play_phase_four().unwrap();
    seven_card_stud.deal_down_cards().unwrap();
    seven_card_stud.play_phase_five().unwrap();
    seven_card_stud.showdown();

    assert_eq!(seven_card_stud.pot().get_call_amount(), bring_in_amount as usize);
    assert_eq!(seven_card_stud.players().get(0).unwrap().balance(), initial_balance - bring_in_amount as usize);
    assert_eq!(seven_card_stud.players().get(1).unwrap().balance(), initial_balance - bring_in_amount as usize);
    assert_eq!(seven_card_stud.players().get(2).unwrap().balance(), initial_balance - bring_in_amount as usize);
}

#[test]
fn seven_card_stud_bring_in_from_lowest_up_card() {
    let mut seven_card_stud = SevenCardStud::<TestInput>::new(1000, 5, id());
    seven_card_stud.set_players(three_players(1000));
    seven_card_stud.deal_card_to_player(0, &Card::new(Rank::King, Suit::Hearts, true), true).unwrap();
    seven_card_stud.deal_card_to_player(1, &Card::new(Rank::Seven, Suit::Clubs, true), true).unwrap();
    seven_card_stud.deal_card_to_player(2, &Card::new(Rank::Seven, Suit::Hearts, true), true).unwrap();
    seven_card_stud.play_bring_in().unwrap();
    // equal lowest ranks: the first of them pays, and betting goes on after them
    assert_eq!(seven_card_stud.players()[1].balance(), 995);
    assert_eq!(seven_card_stud.players()[0].balance(), 1000);
    assert_eq!(seven_card_stud.players()[2].balance(), 1000);
    assert_eq!(seven_card_stud.current_player_index(), 2);
}

#[test]
fn seven_card_stud_best_up_card_hand() {
    let mut seven_card_stud = SevenCardStud::<TestInput>::new(1000, 1, id());
    seven_card_stud.set_players(three_players(1000));
    seven_card_stud.deal_card_to_player(0, &Card::new(Rank::Ace, Suit::Hearts, true), true).unwrap();
    seven_card_stud.deal_card_to_player(0, &Card::new(Rank::King, Suit::Hearts, true), true).unwrap();
    seven_card_stud.deal_card_to_player(1, &Card::new(Rank::Four, Suit::Clubs, true), true).unwrap();
    seven_card_stud.deal_card_to_player(1, &Card::new(Rank::Four, Suit::Hearts, true), true).unwrap();
    seven_card_stud.deal_card_to_player(2, &Card::new(Rank::Ace, Suit::Spades, true), true).unwrap();
    seven_card_stud.deal_card_to_player(2, &Card::new(Rank::Two, Suit::Hearts, false), false).unwrap();
    // a pair of fours beats ace high, whatever lies face down
    assert_eq!(seven_card_stud.find_player_with_best_up_card_hand(), 1);
}

#[test]
fn seven_card_stud_deal_card_not_in_deck() {
    let mut seven_card_stud = SevenCardStud::<TestInput>::new(1000, 1, id());
    seven_card_stud.set_players(three_players(1000));
    let ace = Card::new(Rank::Ace, Suit::Hearts, true);
    seven_card_stud.deal_card_to_player(0, &ace, true).unwrap();
    assert!(seven_card_stud.deal_card_to_player(1, &ace, true).is_err());
    assert_eq!(seven_card_stud.deck().size(), 51);
}

#[test]
fn seven_card_stud_full_round_gives_players_back() {
    let mut seven_card_stud = SevenCardStud::<TestInput>::new(1000, 1, id());
    script(&mut seven_card_stud, all_checks_and_calls(), vec![]);
    // four up cards making two pairs and nothing else cannot be ranked; the round then
    // stops with that reason, and the players are given back all the same
    let back = match seven_card_stud.play_round(three_players(1000)) {
        Ok(back) => back,
        Err((reason, back)) => {
            assert_eq!(reason, "The up cards of a player cannot be ranked as a hand");
            back
        },
    };
    assert_eq!(back.len(), 3);
    let total: usize = back.iter().map(|p| p.balance()).sum();
    assert!(total <= 3000);
    for p in back.iter() {
        assert_eq!(p.cards().len(), 0);
    }
    assert_eq!(seven_card_stud.deck().size(), 52);
}

#[test]
fn seven_card_stud_too_many_players() {
    let mut seven_card_stud = SevenCardStud::<TestInput>::new(1000, 1, id());
    let players: Vec<Player> = (0..8).map(|_| Player::new(id(), "player".to_string(), 1000)).collect();
    let err = seven_card_stud.play_round(players).unwrap_err();
    assert_eq!(err.0, "Cannot start a game with more than 7 players, as the deck may run out of cards");
    assert_eq!(err.1.len(), 8);
}
