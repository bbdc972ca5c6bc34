use rand::Rng;
use poker_project_rustaceans::action::Action;
use poker_project_rustaceans::pot::{Pot, Stakes};
use uuid::Uuid;

fn setup() -> (Vec<u128>, Pot) {
    let n = 10;
    let mut player_ids = Vec::new();
    for _ in 0..n {
        player_ids.push(Uuid::now_v7().as_u128());
    }
    let pot = Pot::new_uuids(&player_ids);
    (player_ids, pot)
}

#[test]
fn test_add_turn() {
    let (ids, mut pot) = setup();
    let bet_amount = 100;
    pot.add_turn(&ids[0], Action::Bet(bet_amount), 0, Vec::new());
    assert_eq!(pot.get_player_stake(&ids[0]), bet_amount, "Stake amount is not the same after bet turn!");
}

#[test]
fn test_get_non_player_id() {
    let (_ids, pot) = setup();
    assert_eq!(pot.get_player_stake(&Uuid::now_v7().as_u128()), 0);
}

#[test]
fn test_divide_winnings_auto_win() {
    let (ids, mut pot) = setup();
    for i in 0..7 {
        pot.add_turn(&ids[i], Action::Fold, 0, Vec::new());
    }
    pot.add_turn(&ids[7], Action::Ante(5), 0, Vec::new());
    pot.add_turn(&ids[8], Action::Ante(5), 0, Vec::new());
    pot.add_turn(&ids[9], Action::Ante(5), 0, Vec::new());
    pot.add_turn(&ids[7], Action::Fold, 0, Vec::new());
    pot.add_turn(&ids[8], Action::Fold, 0, Vec::new());

    let mut players = ids.clone();
    players.swap(8, 9);
    players.reverse();
    let winning_order = players.iter().map(|x| vec![*x]).collect();
    let winnings = pot.divide_winnings(winning_order);
    assert_eq!(winnings.get(&ids[0]), 0, "Player 0 has non-zero winnings");
    assert_eq!(winnings.get(&ids[1]), 0, "Player 1 has non-zero winnings");
    assert_eq!(winnings.get(&ids[2]), 0, "Player 2 has non-zero winnings");
    assert_eq!(winnings.get(&ids[3]), 0, "Player 3 has non-zero winnings");
    assert_eq!(winnings.get(&ids[4]), 0, "Player 4 has non-zero winnings");
    assert_eq!(winnings.get(&ids[5]), 0, "Player 5 has non-zero winnings");
    assert_eq!(winnings.get(&ids[6]), 0, "Player 6 has non-zero winnings");
    assert_eq!(winnings.get(&ids[7]), 0, "Player 7 has incorrect winnings");
    assert_eq!(winnings.get(&ids[8]), 0, "Player 8 has incorrect winnings");
    assert_eq!(winnings.get(&ids[9]), 15, "Player 10 has incorrect winnings");
}

#[test]
fn test_divide_winnings_ties() {
    let (ids, mut pot) = setup();
    for i in 0..7 {
        pot.add_turn(&ids[i], Action::Fold, 0, Vec::new());
    }
    pot.add_turn(&ids[7], Action::Ante(5), 0, Vec::new());
    pot.add_turn(&ids[8], Action::Ante(5), 0, Vec::new());
    pot.add_turn(&ids[9], Action::Ante(5), 0, Vec::new());

    let mut players = ids.clone();
    players.reverse();
    let mut winning_order = vec![vec![players[0], players[1], players[2]]];
    winning_order.extend(players[3..].iter().map(|x| vec![*x]));
    println!("{:?}", winning_order);

    let pot_winnings = pot.divide_winnings(winning_order);
    for &(player, winnings) in pot_winnings.entries().iter() {
        if player == ids[9] || player == ids[8] || player == ids[7] {
            assert_eq!(winnings, 5);
        } else {
            assert_eq!(winnings, 0);
        }
    }
}

#[test]
fn test_divide_winnings_only_main_pot() {
    let (ids, mut pot) = setup();
    for i in 0..7 {
        pot.add_turn(&ids[i], Action::Fold, 0, Vec::new());
    }
    pot.add_turn(&ids[7], Action::Bet(5), 0, Vec::new());
    pot.add_turn(&ids[8], Action::Bet(5), 0, Vec::new());
    pot.add_turn(&ids[9], Action::Bet(5), 0, Vec::new());

    let mut players = ids.clone();
    players.reverse();
    let winning_order = players.iter().map(|x| vec![*x]).collect();
    let winnings = pot.divide_winnings(winning_order);
    assert_eq!(winnings.get(&ids[0]), 0, "Player 0 has non-zero winnings");
    assert_eq!(winnings.get(&ids[1]), 0, "Player 1 has non-zero winnings");
    assert_eq!(winnings.get(&ids[2]), 0, "Player 2 has non-zero winnings");
    assert_eq!(winnings.get(&ids[3]), 0, "Player 3 has non-zero winnings");
    assert_eq!(winnings.get(&ids[4]), 0, "Player 4 has non-zero winnings");
    assert_eq!(winnings.get(&ids[5]), 0, "Player 5 has non-zero winnings");
    assert_eq!(winnings.get(&ids[6]), 0, "Player 6 has non-zero winnings");
    assert_eq!(winnings.get(&ids[7]), 0, "Player 7 has incorrect winnings");
    assert_eq!(winnings.get(&ids[8]), 0, "Player 8 has incorrect winnings");
    assert_eq!(winnings.get(&ids[9]), 15, "Player 10 has incorrect winnings");
}

#[test]
fn test_divide_winnings_side_pots() {
    let (ids, mut pot) = setup();
    for i in 0..7 {
        pot.add_turn(&ids[i], Action::Fold, 0, Vec::new());
    }
    pot.add_turn(&ids[7], Action::Bet(15), 0, Vec::new());
    pot.add_turn(&ids[8], Action::Bet(10), 0, Vec::new());
    pot.add_turn(&ids[9], Action::Bet(5), 0, Vec::new());

    let mut players = ids.clone();
    players.reverse();
    let winning_order = players.iter().map(|x| vec![*x]).collect();
    let winnings = pot.divide_winnings(winning_order);
    assert_eq!(winnings.get(&ids[0]), 0, "Player 0 has non-zero winnings");
    assert_eq!(winnings.get(&ids[1]), 0, "Player 1 has non-zero winnings");
    assert_eq!(winnings.get(&ids[2]), 0, "Player 2 has non-zero winnings");
    assert_eq!(winnings.get(&ids[3]), 0, "Player 3 has non-zero winnings");
    assert_eq!(winnings.get(&ids[4]), 0, "Player 4 has non-zero winnings");
    assert_eq!(winnings.get(&ids[5]), 0, "Player 5 has non-zero winnings");
    assert_eq!(winnings.get(&ids[6]), 0, "Player 6 has non-zero winnings");
    assert_eq!(winnings.get(&ids[7]), 5, "Player 7 has incorrect winnings");
    assert_eq!(winnings.get(&ids[8]), 10, "Player 8 has incorrect winnings");
    assert_eq!(winnings.get(&ids[9]), 15, "Player 10 has incorrect winnings");
}

#[test]
fn test_number_of_players_folded() {
    let (ids, mut pot) = setup();
    assert_eq!(pot.number_of_players_folded(), 0);

    pot.add_turn(&ids[0], Action::Fold, 0, Vec::new());
    pot.add_turn(&ids[1], Action::Fold, 0, Vec::new());
    pot.add_turn(&ids[2], Action::Fold, 0, Vec::new());
    pot.add_turn(&ids[3], Action::Fold, 0, Vec::new());

    assert_eq!(pot.number_of_players_folded(), 4);
}

#[test]
fn divide_winnings_records_settlement_turns() {
    let (ids, mut pot) = setup();
    pot.add_turn(&ids[0], Action::Bet(10), 0, Vec::new());
    pot.add_turn(&ids[1], Action::Bet(20), 3, Vec::new());
    pot.add_turn(&ids[0], Action::Fold, 3, Vec::new());
    let before = pot.history().len();
    let winning_order = vec![vec![ids[1]], vec![ids[0]]];
    let winnings = pot.divide_winnings(winning_order);
    assert_eq!(winnings.get(&ids[1]), 30);
    assert_eq!(winnings.get(&ids[0]), 0);
    // one turn per player with stakes, in the phase after the last one
    assert_eq!(pot.history().len(), before + ids.len());
    let settled: Vec<_> = pot.history()[before..].iter().map(|t| (t.0, t.1, t.2)).collect();
    assert!(settled.contains(&(ids[1], Action::Win(10), 4)));
    assert!(settled.contains(&(ids[0], Action::Lose(10), 4)));
    assert!(settled.contains(&(ids[2], Action::Lose(0), 4)));
    // the stakes stay
    assert_eq!(pot.get_player_stake(&ids[1]), 20);
    assert_eq!(pot.get_total_stake(), 30);
}

#[test]
fn divide_winnings_sole_survivor_takes_all() {
    let (ids, mut pot) = setup();
    pot.add_turn(&ids[0], Action::Bet(40), 1, Vec::new());
    pot.add_turn(&ids[1], Action::Bet(100), 1, Vec::new());
    pot.add_turn(&ids[2], Action::Call, 1, Vec::new());
    pot.add_turn(&ids[1], Action::Fold, 1, Vec::new());
    pot.add_turn(&ids[0], Action::Fold, 1, Vec::new());
    let winning_order = vec![vec![ids[1]], vec![ids[0]], vec![ids[2]]];
    let winnings = pot.divide_winnings(winning_order);
    assert_eq!(winnings.get(&ids[2]), 240);
    assert_eq!(winnings.get(&ids[0]), 0);
    assert_eq!(winnings.get(&ids[1]), 0);
}

#[test]
fn divide_winnings_odd_split_rounds_down() {
    let (ids, mut pot) = setup();
    pot.add_turn(&ids[0], Action::Bet(5), 1, Vec::new());
    pot.add_turn(&ids[1], Action::Call, 1, Vec::new());
    pot.add_turn(&ids[2], Action::Bet(6), 1, Vec::new());
    let winning_order = vec![vec![ids[0], ids[1], ids[2]]];
    let winnings = pot.divide_winnings(winning_order);
    // main pot of 15 split three ways, side pot of 1 to the only player covering it
    assert_eq!(winnings.get(&ids[0]), 5);
    assert_eq!(winnings.get(&ids[1]), 5);
    assert_eq!(winnings.get(&ids[2]), 6);
}

#[test]
fn call_amount_and_folds() {
    let (ids, mut pot) = setup();
    assert_eq!(pot.get_call_amount(), 0);
    pot.add_turn(&ids[3], Action::Raise(12), 1, Vec::new());
    assert_eq!(pot.get_call_amount(), 12);
    pot.add_turn(&ids[4], Action::Call, 1, Vec::new());
    assert_eq!(pot.get_player_stake(&ids[4]), 12);
    assert!(!pot.player_has_folded(&ids[4]));
    pot.add_turn(&ids[4], Action::Fold, 1, Vec::new());
    assert!(pot.player_has_folded(&ids[4]));
    assert_eq!(pot.get_player_ids(), vec![ids[3], ids[4]]);
    pot.clear_uuids(&ids);
    assert_eq!(pot.get_call_amount(), 0);
    assert_eq!(pot.history().len(), 0);
}

fn stakes_setup() -> (Vec<u128>, Stakes) {
    let n = 10;
    let mut ids = Vec::new();
    for _ in 0..n {
        ids.push(Uuid::now_v7().as_u128());
    }
    let stakes = Stakes::new_uuids(&ids);
    (ids, stakes)
}

#[test]
fn test_basic_add() {
    let (ids, mut stakes) = stakes_setup();
    stakes.set(ids[0], 10);
    stakes.add(ids[0], 20);
    assert_eq!(stakes.get(&ids[0]), 30);
}

#[test]
fn test_random_add() {
    let (ids, mut stakes) = stakes_setup();
    let mut rng = rand::rng();
    let x: usize = rng.random_range(0..1000);
    let y: i64 = rng.random_range(10..1000);

    stakes.set(ids[0], x);
    stakes.add(ids[0], y);
    assert_eq!(stakes.get(&ids[0]), x + y as usize);
}

#[test]
fn test_max() {
    let (ids, mut stakes) = stakes_setup();
    stakes.set(ids[0], 10);
    stakes.set(ids[1], 500);
    stakes.set(ids[2], 40);
    assert_eq!(stakes.max(), 500);
}

#[test]
fn test_sum() {
    let (ids, mut stakes) = stakes_setup();
    stakes.set(ids[0], 10);
    stakes.set(ids[1], 500);
    stakes.set(ids[2], 40);
    assert_eq!(stakes.sum(), 550);
}

#[test]
fn test_get_player_ids() {
    let (ids, stakes) = stakes_setup();
    let player_ids = stakes.get_player_ids();
    for id in player_ids.iter() {
        assert!(ids.contains(id));
    }
}

#[test]
fn stakes_add_negative_and_missing_player() {
    let (ids, mut stakes) = stakes_setup();
    stakes.set(ids[0], 50);
    stakes.add(ids[0], -20);
    assert_eq!(stakes.get(&ids[0]), 30);
    let newcomer = Uuid::now_v7().as_u128();
    assert_eq!(stakes.get_opt(&newcomer), None);
    stakes.add(newcomer, 7);
    assert_eq!(stakes.get_opt(&newcomer), Some(7));
    assert_eq!(stakes.get_player_ids().len(), 11);
}

#[test]
fn divide_winnings_rounds_each_share_down() {
    let ids: Vec<u128> = (0..3).map(|_| Uuid::now_v7().as_u128()).collect();
    let mut pot = Pot::new_uuids(&ids);
    for id in ids.iter() {
        pot.add_turn(id, Action::Ante(1), 0, Vec::new());
    }
    pot.add_turn(&ids[2], Action::Fold, 1, Vec::new());
    let winnings = pot.divide_winnings(vec![vec![ids[0], ids[1]], vec![ids[2]]]);
    // the pot of 3 is shared by two winners: 1 each, and the odd unit is paid to nobody
    assert_eq!(winnings.get(&ids[0]), 1);
    assert_eq!(winnings.get(&ids[1]), 1);
    assert_eq!(winnings.get(&ids[2]), 0);
}
