use poker_project_rustaceans::action::Action;
use poker_project_rustaceans::action_option::ActionOption;
use poker_project_rustaceans::rules::table::{bet_action, bet_options, bet_raise_limit, draw_action};

#[test]
fn bet_options_offered() {
    assert_eq!(bet_options(10, 10, 100, false, true), vec![ActionOption::Check, ActionOption::Raise, ActionOption::Fold]);
    assert_eq!(bet_options(10, 0, 100, false, true), vec![ActionOption::Call, ActionOption::Raise, ActionOption::Fold]);
    assert_eq!(bet_options(100, 0, 50, true, true), vec![ActionOption::AllIn, ActionOption::Fold]);
    assert_eq!(bet_options(100, 0, 50, true, false), vec![ActionOption::Call, ActionOption::Raise, ActionOption::Fold]);
}

#[test]
fn bet_raise_limits() {
    assert_eq!(bet_raise_limit(1000, 10, 10, 100, false), 100);
    assert_eq!(bet_raise_limit(30, 10, 10, 100, false), 30);
    assert_eq!(bet_raise_limit(1000, 10, 0, 100, true), 90);
}

#[test]
fn bet_actions_for_answers() {
    assert_eq!(bet_action(10, 10, 100, false, Some(ActionOption::Check), None), Ok(Action::Check));
    assert_eq!(bet_action(10, 10, 100, false, Some(ActionOption::Raise), Some(20)), Ok(Action::Raise(30)));
    assert_eq!(bet_action(10, 10, 100, false, Some(ActionOption::Raise), None), Err("No raise amount was given"));
    assert_eq!(
        bet_action(10, 10, 100, false, Some(ActionOption::Raise), Some(200)),
        Err("Player does not have enough money remaining to make this bet")
    );
    assert_eq!(bet_action(10, 0, 100, false, Some(ActionOption::Call), None), Ok(Action::Call));
    assert_eq!(
        bet_action(10, 10, 100, false, Some(ActionOption::Call), None),
        Err("Player managed to select an impossible Action!")
    );
    assert_eq!(bet_action(100, 20, 50, true, Some(ActionOption::AllIn), None), Ok(Action::AllIn(70)));
    assert_eq!(bet_action(100, 20, 50, true, Some(ActionOption::Fold), None), Ok(Action::Fold));
    assert_eq!(bet_action(100, 20, 50, true, None, None), Err("Player managed to select an impossible Action!"));
}

#[test]
fn draw_actions_for_answers() {
    assert_eq!(draw_action(Some(ActionOption::Replace), Some(3)), Ok(Action::Replace(3)));
    assert_eq!(draw_action(Some(ActionOption::Replace), None), Err("No cards were chosen to be replaced"));
    assert_eq!(draw_action(Some(ActionOption::Check), None), Ok(Action::Check));
    assert_eq!(draw_action(Some(ActionOption::Fold), None), Err("Player managed to select an impossible Action!"));
}
