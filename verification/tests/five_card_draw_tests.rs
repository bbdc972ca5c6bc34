use poker_project_rustaceans::action_option::ActionOption;
use poker_project_rustaceans::card::Card;
use poker_project_rustaceans::game_type::GameType;
use poker_project_rustaceans::input::test_input::TestInput;
use poker_project_rustaceans::player::Player;
use poker_project_rustaceans::rules::five_card_draw::FiveCardDraw;
use poker_project_rustaceans::rules::Rules;
use uuid::Uuid;

fn id() -> u128 {
    Uuid::now_v7().as_u128()
}

fn game() -> FiveCardDraw<TestInput> {
    FiveCardDraw::<TestInput>::new(1000, 2, id())
}

fn three_players(initial_balance: usize) -> Vec<Player> {
    vec![
        Player::new(id(), "player".to_string(), initial_balance),
        Player::new(id(), "player".to_string(), initial_balance),
        Player::new(id(), "player".to_string(), initial_balance),
    ]
}

fn script(five_card_draw: &mut FiveCardDraw<TestInput>, actions: Vec<ActionOption>, replaces: Vec<Vec<usize>>, raises: Vec<u32>) {
    let input = five_card_draw.input_mut();
    input.set_player_names(vec!["p1".to_string(), "p2".to_string(), "p3".to_string()]);
    input.set_game_variation(GameType::FiveCardDraw);
    input.set_action_option_selections(actions);
    input.set_card_replace_selections(replaces);
    input.set_raise_amounts(raises);
}

#[test]
fn five_card_draw_new() {
    let five_card_draw = game();

    assert_eq!(five_card_draw.deck().size(), 52);
    assert_eq!(five_card_draw.dealer_position(), 0);
    assert_eq!(five_card_draw.current_player_index(), 0);
    assert_eq!(five_card_draw.pot().get_call_amount(), 0);
    assert_eq!(five_card_draw.pot().get_player_ids().len(), 0);
    assert_eq!(five_card_draw.players().len(), 0);
}

#[test]
fn five_card_draw_try_play_round_one_player() {
    let mut five_card_draw = game();
    let players = vec![Player::new(id(), "player".to_string(), 1000)];

    assert!(five_card_draw.play_round(players).is_err_and(|err| err.0 == "Cannot start a game with less than 2 players"));
}

#[test]
fn five_card_draw_increment_dealer_position() {
    let mut five_card_draw = game();
    let players = vec![
        Player::new(id(), "player".to_string(), 1000),
        Player::new(id(), "player".to_string(), 1000),
    ];
    five_card_draw.set_players(players);
    assert_eq!(five_card_draw.dealer_position(), 0);
    five_card_draw.increment_dealer_position();
    assert_eq!(five_card_draw.dealer_position(), 1);
    five_card_draw.increment_dealer_position();
    assert_eq!(five_card_draw.dealer_position(), 0);
    let mut players = five_card_draw.players().clone();
    players.pop();
    five_card_draw.set_players(players);
    five_card_draw.increment_dealer_position();
    assert_eq!(five_card_draw.dealer_position(), 0);
}

#[test]
fn five_card_draw_increment_player_index() {
    let mut five_card_draw = game();
    let players = vec![
        Player::new(id(), "player".to_string(), 1000),
        Player::new(id(), "player".to_string(), 1000),
    ];
    five_card_draw.set_players(players);
    assert_eq!(five_card_draw.current_player_index(), 0);
    five_card_draw.increment_player_index();
    assert_eq!(five_card_draw.current_player_index(), 1);
    five_card_draw.increment_player_index();
    assert_eq!(five_card_draw.current_player_index(), 0);
    let mut players = five_card_draw.players().clone();
    players.pop();
    five_card_draw.set_players(players);
    five_card_draw.increment_player_index();
    assert_eq!(five_card_draw.current_player_index(), 0);
}

#[test]
fn five_card_draw_play_blinds() {
    let mut five_card_draw = game();
    let initial_balance = 1000;
    five_card_draw.set_players(three_players(initial_balance));
    five_card_draw.play_blinds().unwrap();
    assert_eq!(five_card_draw.pot().get_call_amount(), 2);
    assert_eq!(five_card_draw.current_player_index(), 2);
    assert_eq!(five_card_draw.players().get(0).unwrap().balance(), initial_balance - 1);
    assert_eq!(five_card_draw.players().get(1).unwrap().balance(), initial_balance - 2);
}

#[test]
fn five_card_draw_deal_initial_cards() {
    let mut five_card_draw = game();
    five_card_draw.set_players(three_players(1000));
    five_card_draw.deal_initial_cards().unwrap();
    let mut cards: Vec<Card> = Vec::new();
    for player in five_card_draw.players().iter() {
        assert_eq!(player.peek_at_cards().len(), 5);
        let temp_cards = player.cards().clone();
        // make sure that cards didn't somehow get duplicated, that cards are in fact unique
        for card in temp_cards.iter() {
            assert!(!cards.contains(card));
        }
        cards.extend(temp_cards);
    }
    assert_eq!(five_card_draw.deck().size(), 52 - 15);
}

#[test]
fn five_card_draw_play_phase_one_check_only() {
    let mut five_card_draw = game();
    let initial_balance = 1000;
    five_card_draw.set_players(three_players(initial_balance));
    script(&mut five_card_draw, vec![ActionOption::Call, ActionOption::Check, ActionOption::Call], vec![], vec![]);

    five_card_draw.play_blinds().unwrap();
    five_card_draw.play_phase_one().unwrap();

    assert_eq!(five_card_draw.pot().get_call_amount(), 2);
    assert_eq!(five_card_draw.dealer_position(), 0);
    assert_eq!(five_card_draw.current_player_index(), 0);
    for player in five_card_draw.players().iter() {
        assert_eq!(player.balance(), initial_balance - 2);
    }
}

#[test]
fn five_card_draw_play_phase_one_with_raises() {
    let mut five_card_draw = game();
    let initial_balance = 1000;
    five_card_draw.set_players(three_players(initial_balance));
    script(
        &mut five_card_draw,
        vec![
            ActionOption::Call,
            ActionOption::Check,
            ActionOption::Raise,
            ActionOption::Call,
            ActionOption::Raise,
            ActionOption::Call,
            ActionOption::Call,
        ],
        vec![],
        vec![10, 15],
    );

    five_card_draw.play_blinds().unwrap();
    five_card_draw.play_phase_one().unwrap();

    assert_eq!(five_card_draw.pot().get_call_amount(), 27);
    assert_eq!(five_card_draw.dealer_position(), 0);
    assert_eq!(five_card_draw.current_player_index(), 1);
    for player in five_card_draw.players().iter() {
        assert_eq!(player.balance(), initial_balance - 27);
    }
}

#[test]
fn five_card_draw_play_phase_one_with_folds() {
    let mut five_card_draw = game();
    let initial_balance = 1000;
    five_card_draw.set_players(three_players(initial_balance));
    script(
        &mut five_card_draw,
        vec![
            ActionOption::Fold, // player 0 folds
            ActionOption::Check,
            ActionOption::Raise,
            ActionOption::Raise,
            ActionOption::Fold, // player 2 folds, only player 1 remains
        ],
        vec![],
        vec![10, 15],
    );

    five_card_draw.play_blinds().unwrap();
    five_card_draw.play_phase_one().unwrap();

    assert_eq!(five_card_draw.pot().get_call_amount(), 27);
    assert_eq!(five_card_draw.dealer_position(), 0);
    assert_eq!(five_card_draw.players().get(0).unwrap().balance(), initial_balance - 1); // small blind then fold
    assert_eq!(five_card_draw.players().get(1).unwrap().balance(), initial_balance - 27); // the only remaining player, they have the max bet
    assert_eq!(five_card_draw.players().get(2).unwrap().balance(), initial_balance - 12); // raise to 12 then fold
}

#[test]
fn five_card_draw_play_all_folds_auto_win() {
    let mut five_card_draw = game();
    let initial_balance = 1000;
    five_card_draw.set_players(three_players(initial_balance));
    script(
        &mut five_card_draw,
        vec![
            ActionOption::Fold,
            ActionOption::Fold,
            ActionOption::Raise, // this should not be allowed to happen as this player should automatically win
        ],
        vec![],
        vec![100],
    );

    five_card_draw.play_blinds().unwrap();
    five_card_draw.deal_initial_cards().unwrap();
    five_card_draw.play_phase_one().unwrap();
    five_card_draw.play_draw_phase().unwrap();
    five_card_draw.play_phase_two().unwrap();
    assert_eq!(five_card_draw.pot().get_call_amount(), 2);
    assert_eq!(five_card_draw.players().get(0).unwrap().balance(), initial_balance - 1); // small blind and fold
    assert_eq!(five_card_draw.players().get(1).unwrap().balance(), initial_balance - 2); // big blind and fold
    assert_eq!(five_card_draw.players().get(2).unwrap().balance(), initial_balance); // should not have the opportunity to raise due to auto-winning
    five_card_draw.showdown().unwrap();
    assert_eq!(five_card_draw.players().get(0).unwrap().balance(), initial_balance - 1); // small blind and fold
    assert_eq!(five_card_draw.players().get(1).unwrap().balance(), initial_balance - 2); // big blind and fold
    assert_eq!(five_card_draw.players().get(2).unwrap().balance(), initial_balance + 3); // automatically wins due to other players folding, gets 3$
}

#[test]
fn play_full_game_auto_win() {
    let mut five_card_draw = game();
    let initial_balance = 1000;
    five_card_draw.set_players(three_players(initial_balance));
    script(
        &mut five_card_draw,
        vec![
            ActionOption::Call, // phase 1
            ActionOption::Check,
            ActionOption::Raise,
            ActionOption::Call,
            ActionOption::Call,
            ActionOption::Check, // draw phase
            ActionOption::Check,
            ActionOption::Check,
            ActionOption::Raise, // phase 2, start back at player 0
            ActionOption::Raise,
            ActionOption::Fold,
            ActionOption::Raise,
            ActionOption::Fold,
        ],
        vec![],
        vec![98, 100, 100, 100],
    );

    five_card_draw.play_blinds().unwrap();
    five_card_draw.deal_initial_cards().unwrap();
    five_card_draw.play_phase_one().unwrap();
    five_card_draw.play_draw_phase().unwrap();
    five_card_draw.play_phase_two().unwrap();
    assert_eq!(five_card_draw.pot().get_call_amount(), 400);
    assert_eq!(five_card_draw.players().get(0).unwrap().balance(), initial_balance - 400); // small blind, call to 2, call to 100, raise to 200, raise to 400, auto-wins
    assert_eq!(five_card_draw.players().get(1).unwrap().balance(), initial_balance - 300); // big blind, call to 100, raise to 300, and fold
    assert_eq!(five_card_draw.players().get(2).unwrap().balance(), initial_balance - 100); // raise to 100, and fold
    five_card_draw.showdown().unwrap();
    assert_eq!(five_card_draw.players().get(0).unwrap().balance(), initial_balance + 400);
    assert_eq!(five_card_draw.players().get(1).unwrap().balance(), initial_balance - 300);
    assert_eq!(five_card_draw.players().get(2).unwrap().balance(), initial_balance - 100);
}

#[test]
fn play_draw_phase_draw_various_amounts_of_cards() {
    let mut five_card_draw = game();
    let initial_balance = 1000;
    five_card_draw.set_players(three_players(initial_balance));
    script(
        &mut five_card_draw,
        vec![
            // phase 1
            ActionOption::Call,
            ActionOption::Check,
            ActionOption::Call,
            // draw phase
            ActionOption::Check,
            ActionOption::Replace,
            ActionOption::Replace,
        ],
        vec![
            vec![],              // replace no cards
            vec![0, 1, 2, 3, 4], // replace all cards
        ],
        vec![],
    );

    five_card_draw.play_blinds().unwrap();
    five_card_draw.deal_initial_cards().unwrap();

    let mut initial_player_cards: Vec<Vec<Card>> = Vec::new();
    for player in five_card_draw.players().iter() {
        initial_player_cards.push(player.peek_at_cards().iter().map(|&card| card.clone()).collect());
    }

    five_card_draw.play_phase_one().unwrap();
    five_card_draw.play_draw_phase().unwrap();

    assert_eq!(five_card_draw.pot().get_call_amount(), 2);
    assert_eq!(five_card_draw.dealer_position(), 0);
    assert_eq!(five_card_draw.current_player_index(), 0);
    for player in five_card_draw.players().iter() {
        assert_eq!(player.balance(), initial_balance - 2);
        assert_eq!(player.peek_at_cards().len(), 5);
    }
    for (card_index, card) in five_card_draw.players().get(0).unwrap().peek_at_cards().iter().enumerate() {
        assert_eq!(**card, *initial_player_cards.get(0).unwrap().get(card_index).unwrap());
    }
    for (card_index, card) in five_card_draw.players().get(1).unwrap().peek_at_cards().iter().enumerate() {
        assert_eq!(**card, *initial_player_cards.get(1).unwrap().get(card_index).unwrap());
    }
    for (card_index, card) in five_card_draw.players().get(2).unwrap().peek_at_cards().iter().enumerate() {
        if **card != *initial_player_cards.get(2).unwrap().get(card_index).unwrap() {
            break;
        }
        if card_index == 4 {
            // last card and they have all matched so far, something is wrong or we got insanely unlucky...
            panic!();
        }
    }
}

#[test]
fn five_card_draw_play_full_round_all_checks_and_calls() {
    let mut five_card_draw = game();
    let initial_balance = 1000;
    five_card_draw.set_players(three_players(initial_balance));
    script(
        &mut five_card_draw,
        vec![
            ActionOption::Call, // phase 1
            ActionOption::Check,
            ActionOption::Call,
            ActionOption::Check, // draw phase
            ActionOption::Check,
            ActionOption::Check,
            ActionOption::Check, // phase 2
            ActionOption::Check,
            ActionOption::Check,
        ],
        vec![],
        vec![],
    );

    five_card_draw.play_blinds().unwrap();
    five_card_draw.deal_initial_cards().unwrap();
    five_card_draw.play_phase_one().unwrap();
    five_card_draw.play_draw_phase().unwrap();
    five_card_draw.play_phase_two().unwrap();
    assert_eq!(five_card_draw.pot().get_call_amount(), 2);
    assert_eq!(five_card_draw.players().get(0).unwrap().balance(), initial_balance - 2); // call to 2 and check the rest
    assert_eq!(five_card_draw.players().get(1).unwrap().balance(), initial_balance - 2); // big blind 2 and check the rest
    assert_eq!(five_card_draw.players().get(2).unwrap().balance(), initial_balance - 2); // call to 2 and check the rest
    five_card_draw.showdown().unwrap();
}

#[test]
fn play_phase_one_with_all_ins() {
    let mut five_card_draw = game();
    let initial_balance = 100;
    five_card_draw.set_players(three_players(initial_balance));
    script(
        &mut five_card_draw,
        vec![
            ActionOption::Call,
            ActionOption::Check,
            ActionOption::Raise,
            ActionOption::AllIn,
            ActionOption::AllIn, // this player MUST go all in (call would do the same thing as all in, raise limit is 0) to match the call
        ],
        vec![],
        vec![98], // raise to the amount that every player has
    );

    five_card_draw.play_blinds().unwrap();
    five_card_draw.play_phase_one().unwrap();

    assert_eq!(five_card_draw.pot().get_call_amount(), 100);
    assert_eq!(five_card_draw.players().get(0).unwrap().balance(), 0);
    assert_eq!(five_card_draw.players().get(1).unwrap().balance(), 0);
    assert_eq!(five_card_draw.players().get(2).unwrap().balance(), 0);
}

#[test]
fn play_phase_one_with_all_ins_not_enough_further_raise() {
    let mut five_card_draw = game();
    let players = vec![
        Player::new(id(), "player".to_string(), 1000),
        Player::new(id(), "player".to_string(), 100),
        Player::new(id(), "player".to_string(), 10),
    ];
    five_card_draw.set_players(players);
    script(
        &mut five_card_draw,
        vec![
            ActionOption::Raise,
            ActionOption::AllIn,
            ActionOption::AllIn, // players 1 and 2 should no longer be able to play bet phases, as they have nothing to bet (but they can still replace cards)
        ],
        vec![],
        vec![498], // raise to more than players 1 and 2 have
    );

    five_card_draw.play_blinds().unwrap();
    five_card_draw.play_phase_one().unwrap();

    assert_eq!(five_card_draw.pot().get_call_amount(), 500);
    assert_eq!(five_card_draw.players().get(0).unwrap().balance(), 500);
    assert_eq!(five_card_draw.players().get(1).unwrap().balance(), 0);
    assert_eq!(five_card_draw.players().get(2).unwrap().balance(), 0);
}

#[test]
fn play_full_round_with_all_ins_not_enough() {
    let mut five_card_draw = game();
    let players = vec![
        Player::new(id(), "player".to_string(), 1000),
        Player::new(id(), "player".to_string(), 100),
        Player::new(id(), "player".to_string(), 10),
    ];
    five_card_draw.set_players(players);
    script(
        &mut five_card_draw,
        vec![
            ActionOption::Raise,
            ActionOption::AllIn,
            ActionOption::AllIn, // players 1 and 2 should no longer be able to play bet phases, as they have nothing to bet (but they can still replace cards)
            ActionOption::Check, // draw phase
            ActionOption::Replace,
            ActionOption::Check, // last betting phase is skipped because all players are all in but one
        ],
        vec![
            vec![0, 2, 4], // player 1 replaces cards after all in
        ],
        vec![498], // raise to more than players 1 and 2 have
    );

    five_card_draw.play_blinds().unwrap();
    five_card_draw.deal_initial_cards().unwrap();
    five_card_draw.play_phase_one().unwrap();
    five_card_draw.play_draw_phase().unwrap();
    five_card_draw.play_phase_two().unwrap();
    assert_eq!(five_card_draw.pot().get_call_amount(), 500);
    assert_eq!(five_card_draw.players().get(0).unwrap().balance(), 500);
    assert_eq!(five_card_draw.players().get(1).unwrap().balance(), 0);
    assert_eq!(five_card_draw.players().get(2).unwrap().balance(), 0);
    five_card_draw.showdown().unwrap();
    let total_balance: usize = five_card_draw.players().iter().map(|player| player.balance()).sum();
    assert_eq!(total_balance, 1110);
}

#[test]
fn play_full_round_with_all_ins_not_enough_further_raise() {
    let mut five_card_draw = game();
    let players = vec![
        Player::new(id(), "player".to_string(), 1000),
        Player::new(id(), "player".to_string(), 100),
        Player::new(id(), "player".to_string(), 10),
    ];
    five_card_draw.set_players(players);
    script(
        &mut five_card_draw,
        vec![
            ActionOption::Raise,
            ActionOption::Call,
            ActionOption::AllIn, // player 2 should no longer be able to play bet phases, as they have nothing to bet (but they can still replace cards)
            ActionOption::Check, // draw phase
            ActionOption::Replace,
            ActionOption::Check,
            ActionOption::Raise, // phase 2, player 0 can raise because not everyone else is all in yet
            ActionOption::AllIn, // however, after this, both player 1 and 2 can no longer bet, so the round is over
        ],
        vec![
            vec![0, 2, 4], // player 1 replaces cards after all in
        ],
        vec![
            48,  // raise to more than player 2 has
            150, // raise to more than player 1 has
        ],
    );

    five_card_draw.play_blinds().unwrap();
    five_card_draw.deal_initial_cards().unwrap();
    five_card_draw.play_phase_one().unwrap();
    five_card_draw.play_draw_phase().unwrap();
    five_card_draw.play_phase_two().unwrap();
    assert_eq!(five_card_draw.pot().get_call_amount(), 200);
    assert_eq!(five_card_draw.players().get(0).unwrap().balance(), 800);
    assert_eq!(five_card_draw.players().get(1).unwrap().balance(), 0);
    assert_eq!(five_card_draw.players().get(2).unwrap().balance(), 0);
    five_card_draw.showdown().unwrap();
    let total_balance: usize = five_card_draw.players().iter().map(|player| player.balance()).sum();
    assert_eq!(total_balance, 1110);
}

#[test]
fn five_card_draw_full_round_gives_players_back() {
    let mut five_card_draw = game();
    let initial_balance = 1000;
    five_card_draw.input_mut().set_action_option_selections(vec![
        ActionOption::Call, // phase 1: the dealer moved to seat 1, who pays the small blind
        ActionOption::Check,
        ActionOption::Call,
        ActionOption::Check, // draw phase
        ActionOption::Check,
        ActionOption::Check,
        ActionOption::Fold, // phase 2
        ActionOption::Fold,
    ]);
    let players = three_players(initial_balance);
    let ids: Vec<u128> = players.iter().map(|p| p.account_id()).collect();
    let back = five_card_draw.play_round(players).unwrap();
    assert_eq!(back.iter().map(|p| p.account_id()).collect::<Vec<_>>(), ids);
    assert!(back.iter().all(|p| p.peek_at_cards().is_empty()));
    let total: usize = back.iter().map(|p| p.balance()).sum();
    assert_eq!(total, 3 * initial_balance);
    // seat 0 is the only player left in phase 2 and takes the pot of 6
    assert_eq!(back[0].balance(), initial_balance + 4);
    assert_eq!(five_card_draw.deck().size(), 52);
    assert_eq!(five_card_draw.players().len(), 0);
    assert_eq!(five_card_draw.dealer_position(), 1);
}

#[test]
fn five_card_draw_round_refusals() {
    let mut five_card_draw = game();
    let mut many = Vec::new();
    for _ in 0..11 {
        many.push(Player::new(id(), "player".to_string(), 10));
    }
    let err = five_card_draw.play_round(many).unwrap_err();
    assert_eq!(err.0, "Cannot start a game with more than 10 players, as the deck may run out of cards");
    assert_eq!(err.1.len(), 11);
    let rich = vec![
        Player::new(id(), "a".to_string(), usize::MAX),
        Player::new(id(), "b".to_string(), 1),
    ];
    let err = five_card_draw.play_round(rich).unwrap_err();
    assert_eq!(err.0, "The players' balances are too large");
    assert_eq!(err.1.len(), 2);
}

#[test]
fn five_card_draw_missing_answer_is_an_error() {
    let mut five_card_draw = game();
    five_card_draw.set_players(three_players(1000));
    five_card_draw.play_blinds().unwrap();
    // nobody was told what to answer
    assert!(five_card_draw.play_phase_one().is_err());
    assert_eq!(five_card_draw.players()[0].balance(), 999);
}
