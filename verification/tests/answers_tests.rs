use poker_project_rustaceans::card::{Card, Rank, Suit};
use poker_project_rustaceans::game_type::GameType;
use poker_project_rustaceans::input::answers::{
    amount_answer, menu_choice, parse_number, replace_answer, selected_cards, toggle_selection, variation_choice, AmountRefusal,
    ReplaceAnswer,
};

fn chars(s: &str) -> Vec<char> {
    s.chars().collect()
}

#[test]
fn parse_number_reads_like_std() {
    for text in ["0", "7", "+42", "4294967295", "4294967296", "", "+", "-1", "1 2", "12a", "007", "99999999999999999999999"] {
        let expected = text.parse::<u32>().ok().map(|v| v as u64);
        assert_eq!(parse_number(&chars(text), u32::MAX as u64), expected, "text {:?}", text);
    }
    assert_eq!(parse_number(&chars("300"), 255), None);
    assert_eq!(parse_number(&chars("255"), 255), Some(255));
}

#[test]
fn menu_choices() {
    assert_eq!(menu_choice(&chars("0"), 3), Some(0));
    assert_eq!(menu_choice(&chars("2"), 3), Some(2));
    assert_eq!(menu_choice(&chars("3"), 3), None);
    assert_eq!(menu_choice(&chars("one"), 3), None);
}

#[test]
fn amounts() {
    assert_eq!(amount_answer(&chars("50"), 100), Ok(50));
    assert_eq!(amount_answer(&chars("100"), 100), Ok(100));
    assert_eq!(amount_answer(&chars("101"), 100), Err(AmountRefusal::AboveLimit));
    assert_eq!(amount_answer(&chars("0"), 100), Err(AmountRefusal::NotPositive));
    assert_eq!(amount_answer(&chars("ten"), 100), Err(AmountRefusal::NotANumber));
}

#[test]
fn variations() {
    assert_eq!(variation_choice(&chars("1")), Some(GameType::FiveCardDraw));
    assert_eq!(variation_choice(&chars("2")), Some(GameType::SevenCardStud));
    assert_eq!(variation_choice(&chars("3")), Some(GameType::TexasHoldem));
    assert_eq!(variation_choice(&chars("4")), None);
}

#[test]
fn replace_answers_and_selection() {
    assert_eq!(replace_answer(&chars("x"), 5), ReplaceAnswer::Finish);
    assert_eq!(replace_answer(&chars("4"), 5), ReplaceAnswer::Toggle(4));
    assert_eq!(replace_answer(&chars("5"), 5), ReplaceAnswer::Invalid);
    assert_eq!(replace_answer(&chars("xx"), 5), ReplaceAnswer::Invalid);
    let cards = vec![
        Card::new(Rank::Two, Suit::Clubs, false),
        Card::new(Rank::Three, Suit::Clubs, false),
        Card::new(Rank::Four, Suit::Clubs, false),
    ];
    let chosen = selected_cards(&cards, &vec![true, false, true]);
    assert_eq!(chosen, vec![cards[0], cards[2]]);
}

#[test]
fn toggling_a_selection_marks_and_unmarks_one_card() {
    let mut selected = vec![false, true, false];
    toggle_selection(&mut selected, 0);
    assert_eq!(selected, vec![true, true, false]);
    toggle_selection(&mut selected, 1);
    assert_eq!(selected, vec![true, false, false]);
}
