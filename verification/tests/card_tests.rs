use poker_project_rustaceans::card::{Card, Rank, Suit};

#[test]
fn card_constructor() {
    let card = Card::new(Rank::Ace, Suit::Clubs, false);
    assert_eq!(*card.rank(), Rank::Ace);
    assert_eq!(*card.suit(), Suit::Clubs);
    assert_ne!(*card.rank(), Rank::King);
    assert_ne!(*card.suit(), Suit::Diamonds);
}

#[test]
fn is_number() {
    let card = Card::new(Rank::Queen, Suit::Clubs, false);
    assert!(!card.is_number());
    let card = Card::new(Rank::Two, Suit::Clubs, false);
    assert!(card.is_number());
    let card = Card::new(Rank::Ace, Suit::Diamonds, false);
    assert!(card.is_number());
    let card = Card::new(Rank::Ten, Suit::Spades, false);
    assert!(card.is_number());
    let card = Card::new(Rank::Jack, Suit::Hearts, false);
    assert!(!card.is_number());
}

#[test]
fn is_face() {
    let card = Card::new(Rank::Queen, Suit::Clubs, false);
    assert!(card.is_face());
    let card = Card::new(Rank::Two, Suit::Clubs, false);
    assert!(!card.is_face());
    let card = Card::new(Rank::Ace, Suit::Diamonds, false);
    assert!(!card.is_face());
    let card = Card::new(Rank::Ten, Suit::Spades, false);
    assert!(!card.is_face());
    let card = Card::new(Rank::Jack, Suit::Hearts, false);
    assert!(card.is_face());
}

#[test]
fn card_is_equal() {
    let ace_of_clubs = Card::new(Rank::Ace, Suit::Clubs, false);
    let ace_of_clubs_2 = Card::new(Rank::Ace, Suit::Clubs, false);
    assert_eq!(ace_of_clubs, ace_of_clubs_2);
    let ace_of_spades = Card::new(Rank::Ace, Suit::Spades, false);
    assert_ne!(ace_of_clubs, ace_of_spades);
    let two_of_clubs = Card::new(Rank::Two, Suit::Clubs, false);
    assert_ne!(ace_of_clubs, two_of_clubs);
}

#[test]
fn ordering() {
    let ace = Rank::Ace;
    let king = Rank::King;
    assert!(ace > king);
    let two = Rank::Two;
    assert!(two < king);
    assert!(two < ace);
    let ten = Rank::Ten;
    assert!(ten > two);
    assert!(ten < king);
    assert!(ten < ace);
    let ace_2 = Rank::Ace;
    assert_eq!(ace, ace_2);
    assert_ne!(ace, king);
}

#[test]
fn suit_is_equal() {
    let clubs = Suit::Clubs;
    let spades = Suit::Spades;
    let clubs_2 = Suit::Clubs;
    assert_eq!(clubs, clubs_2);
    assert_ne!(clubs, spades);
    let diamonds = Suit::Diamonds;
    assert_ne!(clubs, diamonds);
    assert_ne!(spades, diamonds);
}

#[test]
fn card_equality_ignores_face_up() {
    let down = Card::new(Rank::Nine, Suit::Hearts, false);
    let mut up = Card::new(Rank::Nine, Suit::Hearts, true);
    assert_eq!(down, up);
    assert!(up.is_face_up());
    up.set_face_up(false);
    assert!(!up.is_face_up());
}

#[test]
fn suit_colours() {
    assert!(Suit::Clubs.is_black() && !Suit::Clubs.is_red());
    assert!(Suit::Spades.is_black() && !Suit::Spades.is_red());
    assert!(Suit::Hearts.is_red() && !Suit::Hearts.is_black());
    assert!(Suit::Diamonds.is_red() && !Suit::Diamonds.is_black());
    let card = Card::new(Rank::Two, Suit::Diamonds, true);
    assert!(card.is_red());
    assert!(!card.is_black());
}

#[test]
fn rank_values_round_trip() {
    assert_eq!(Rank::Two.to_u8(), 2);
    assert_eq!(Rank::Ten.to_u8(), 10);
    assert_eq!(Rank::Jack.to_u8(), 11);
    assert_eq!(Rank::Ace.to_u8(), 14);
    for v in 2u8..=14 {
        assert_eq!(Rank::to_rank(v).to_u8(), v);
    }
    assert_eq!(Rank::to_rank(12), Rank::Queen);
}

#[test]
fn card_ordering_by_rank() {
    let low = Card::new(Rank::Three, Suit::Spades, false);
    let high = Card::new(Rank::King, Suit::Hearts, false);
    assert!(low < high);
    let same_rank = Card::new(Rank::Three, Suit::Hearts, false);
    assert_eq!(low.partial_cmp(&same_rank), Some(std::cmp::Ordering::Equal));
}
