use poker_project_rustaceans::card::{Card, Rank, Suit};
use poker_project_rustaceans::hand_rank::{Hand, HandRank};

#[test]
fn test_new() {
    let cards = vec![
        Card::new(Rank::King, Suit::Hearts, false),
        Card::new(Rank::Jack, Suit::Hearts, false),
        Card::new(Rank::Ten, Suit::Hearts, false),
        Card::new(Rank::Ace, Suit::Hearts, false),
        Card::new(Rank::Queen, Suit::Hearts, false),
    ];
    let hand = Hand::new(cards.clone());

    assert_eq!(hand.cards().len(), 5);
    assert_eq!(*hand.cards(), cards);
}

#[test]
fn test_high_card() {
    let hand = vec![
        Card::new(Rank::Two, Suit::Hearts, false),
        Card::new(Rank::Four, Suit::Diamonds, false),
        Card::new(Rank::Six, Suit::Clubs, false),
        Card::new(Rank::Eight, Suit::Spades, false),
        Card::new(Rank::Jack, Suit::Hearts, false),
    ];
    let hand_rank = Hand::rank_hand(&hand);
    assert_eq!(hand_rank, HandRank::HighCard(Rank::Jack, vec![Rank::Eight, Rank::Six, Rank::Four, Rank::Two]));
}
#[test]
fn test_one_pair() {
    let hand = vec![
        Card::new(Rank::Two, Suit::Hearts, false),
        Card::new(Rank::Six, Suit::Diamonds, false),
        Card::new(Rank::Six, Suit::Clubs, false),
        Card::new(Rank::Eight, Suit::Spades, false),
        Card::new(Rank::Jack, Suit::Hearts, false),
    ];
    let hand_rank = Hand::rank_hand(&hand);
    assert_eq!(hand_rank, HandRank::OnePair(Rank::Six, vec![Rank::Jack, Rank::Eight, Rank::Two]));
}
#[test]
fn test_two_pair() {
    let hand = vec![
        Card::new(Rank::Two, Suit::Hearts, false),
        Card::new(Rank::Six, Suit::Diamonds, false),
        Card::new(Rank::Six, Suit::Clubs, false),
        Card::new(Rank::Two, Suit::Spades, false),
        Card::new(Rank::Jack, Suit::Hearts, false),
    ];
    let hand_rank = Hand::rank_hand(&hand);
    assert_eq!(hand_rank, HandRank::TwoPair(Rank::Six, Rank::Two, Rank::Jack));
}
#[test]
fn test_three_of_a_kind() {
    let hand = vec![
        Card::new(Rank::Two, Suit::Hearts, false),
        Card::new(Rank::Six, Suit::Diamonds, false),
        Card::new(Rank::Six, Suit::Clubs, false),
        Card::new(Rank::Eight, Suit::Spades, false),
        Card::new(Rank::Six, Suit::Hearts, false),
    ];
    let hand_rank = Hand::rank_hand(&hand);
    assert_eq!(hand_rank, HandRank::ThreeOfAKind(Rank::Six, vec![Rank::Eight, Rank::Two]));
}
#[test]
fn test_straight() {
    let hand = vec![
        Card::new(Rank::Two, Suit::Hearts, false),
        Card::new(Rank::Three, Suit::Diamonds, false),
        Card::new(Rank::Six, Suit::Clubs, false),
        Card::new(Rank::Five, Suit::Spades, false),
        Card::new(Rank::Four, Suit::Hearts, false),
    ];
    let hand_rank = Hand::rank_hand(&hand);
    assert_eq!(hand_rank, HandRank::Straight(Rank::Six));
}
#[test]
fn test_straight_w_ace() {
    let hand = vec![
        Card::new(Rank::Two, Suit::Hearts, false),
        Card::new(Rank::Three, Suit::Diamonds, false),
        Card::new(Rank::Ace, Suit::Clubs, false),
        Card::new(Rank::Five, Suit::Spades, false),
        Card::new(Rank::Four, Suit::Hearts, false),
    ];
    let hand_rank = Hand::rank_hand(&hand);
    assert_eq!(hand_rank, HandRank::Straight(Rank::Five));
}
#[test]
fn test_flush() {
    let hand = vec![
        Card::new(Rank::Two, Suit::Hearts, false),
        Card::new(Rank::Three, Suit::Hearts, false),
        Card::new(Rank::Six, Suit::Hearts, false),
        Card::new(Rank::Five, Suit::Hearts, false),
        Card::new(Rank::Seven, Suit::Hearts, false),
    ];
    let hand_rank = Hand::rank_hand(&hand);
    assert_eq!(hand_rank, HandRank::Flush(Rank::Seven, vec![Rank::Six, Rank::Five, Rank::Three, Rank::Two]));
}
#[test]
fn test_full_house() {
    let hand = vec![
        Card::new(Rank::Eight, Suit::Hearts, false),
        Card::new(Rank::Six, Suit::Diamonds, false),
        Card::new(Rank::Six, Suit::Clubs, false),
        Card::new(Rank::Eight, Suit::Spades, false),
        Card::new(Rank::Six, Suit::Hearts, false),
    ];
    let hand_rank = Hand::rank_hand(&hand);
    assert_eq!(hand_rank, HandRank::FullHouse(Rank::Six, Rank::Eight));
}
#[test]
fn test_four_of_a_kind() {
    let hand = vec![
        Card::new(Rank::Eight, Suit::Hearts, false),
        Card::new(Rank::Six, Suit::Diamonds, false),
        Card::new(Rank::Six, Suit::Clubs, false),
        Card::new(Rank::Six, Suit::Spades, false),
        Card::new(Rank::Six, Suit::Hearts, false),
    ];
    let hand_rank = Hand::rank_hand(&hand);
    assert_eq!(hand_rank, HandRank::FourOfAKind(Rank::Six, Rank::Eight));
}
#[test]
fn test_straight_flush() {
    let hand = vec![
        Card::new(Rank::Two, Suit::Hearts, false),
        Card::new(Rank::Three, Suit::Hearts, false),
        Card::new(Rank::Six, Suit::Hearts, false),
        Card::new(Rank::Five, Suit::Hearts, false),
        Card::new(Rank::Four, Suit::Hearts, false),
    ];
    let hand_rank = Hand::rank_hand(&hand);
    assert_eq!(hand_rank, HandRank::StraightFlush(Rank::Six));
}
#[test]
fn test_straight_flush_w_ace() {
    let hand = vec![
        Card::new(Rank::Two, Suit::Hearts, false),
        Card::new(Rank::Three, Suit::Hearts, false),
        Card::new(Rank::Five, Suit::Hearts, false),
        Card::new(Rank::Ace, Suit::Hearts, false),
        Card::new(Rank::Four, Suit::Hearts, false),
    ];
    let hand_rank = Hand::rank_hand(&hand);
    assert_eq!(hand_rank, HandRank::StraightFlush(Rank::Five));
}
#[test]
fn test_royal_flush() {
    let hand = vec![
        Card::new(Rank::King, Suit::Hearts, false),
        Card::new(Rank::Jack, Suit::Hearts, false),
        Card::new(Rank::Ten, Suit::Hearts, false),
        Card::new(Rank::Ace, Suit::Hearts, false),
        Card::new(Rank::Queen, Suit::Hearts, false),
    ];
    let hand_rank = Hand::rank_hand(&hand);
    assert_eq!(hand_rank, HandRank::RoyalFlush);
}

#[test]
fn test_ordering() {
    let cards1 = vec![
        Card::new(Rank::King, Suit::Hearts, false),
        Card::new(Rank::Jack, Suit::Hearts, false),
        Card::new(Rank::Ten, Suit::Hearts, false),
        Card::new(Rank::Ace, Suit::Hearts, false),
        Card::new(Rank::Queen, Suit::Hearts, false),
    ];
    let hand1 = Hand::new(cards1);
    let cards2 = vec![
        Card::new(Rank::Two, Suit::Hearts, false),
        Card::new(Rank::Six, Suit::Diamonds, false),
        Card::new(Rank::Six, Suit::Clubs, false),
        Card::new(Rank::Two, Suit::Spades, false),
        Card::new(Rank::Jack, Suit::Hearts, false),
    ];
    let hand2 = Hand::new(cards2);
    assert!(hand1 > hand2);
}

#[test]
fn test_ordering_one_card() {
    let cards1 = vec![
        Card::new(Rank::King, Suit::Spades, false)
    ];
    let hand1 = Hand::new(cards1);
    let cards2 = vec![
        Card::new(Rank::Three, Suit::Hearts, false)
    ];
    let hand2 = Hand::new(cards2);
    assert!(hand1 > hand2);
}

#[test]
fn test_ordering_two_cards() {
    let cards1 = vec![
        Card::new(Rank::King, Suit::Spades, false),
        Card::new(Rank::Queen, Suit::Spades, false)
    ];
    let hand1 = Hand::new(cards1);
    let cards2 = vec![
        Card::new(Rank::Three, Suit::Hearts, false),
        Card::new(Rank::Three, Suit::Diamonds, false)
    ];
    let hand2 = Hand::new(cards2);
    assert!(hand1 < hand2);
}

#[test]
fn test_ordering_three_cards_high_card_to_one_pair() {
    let high_card = Hand::new(vec![
        Card::new(Rank::King, Suit::Spades, false),
        Card::new(Rank::Queen, Suit::Spades, false),
        Card::new(Rank::Ace, Suit::Clubs, false)
    ]);
    let one_pair = Hand::new(vec![
        Card::new(Rank::Three, Suit::Hearts, false),
        Card::new(Rank::Three, Suit::Diamonds, false),
        Card::new(Rank::Two, Suit::Clubs, false)
    ]);
    assert!(high_card < one_pair);
}

#[test]
fn test_ordering_three_cards_one_pair_to_three_of_a_kind() {
    let one_pair = Hand::new(vec![
        Card::new(Rank::Four, Suit::Hearts, false),
        Card::new(Rank::Four, Suit::Diamonds, false),
        Card::new(Rank::Two, Suit::Clubs, false)
    ]);
    let three_of_a_kind = Hand::new(vec![
        Card::new(Rank::Three, Suit::Spades, false),
        Card::new(Rank::Three, Suit::Diamonds, false),
        Card::new(Rank::Three, Suit::Clubs, false)
    ]);
    assert!(one_pair < three_of_a_kind);
}

#[test]
fn test_ordering_three_cards_both_one_pair() {
    let one_pair1 = Hand::new(vec![
        Card::new(Rank::Four, Suit::Hearts, false),
        Card::new(Rank::Four, Suit::Diamonds, false),
        Card::new(Rank::Three, Suit::Clubs, false)
    ]);
    let one_pair2 = Hand::new(vec![
        Card::new(Rank::Three, Suit::Spades, false),
        Card::new(Rank::Three, Suit::Diamonds, false),
        Card::new(Rank::Four, Suit::Clubs, false)
    ]);
    assert!(one_pair1 > one_pair2);
}

#[test]
fn test_ordering_seven_cards() {
    let cards1 = vec![
        Card::new(Rank::Ace, Suit::Spades, false),
        Card::new(Rank::Ace, Suit::Diamonds, false),
        Card::new(Rank::Two, Suit::Spades, false),
        Card::new(Rank::Four, Suit::Hearts, false),
        Card::new(Rank::Six, Suit::Clubs, false),
        Card::new(Rank::Eight, Suit::Clubs, false),
        Card::new(Rank::Ten, Suit::Diamonds, false)
    ];
    let hand1 = Hand::new(cards1);
    let cards2 = vec![
        Card::new(Rank::Ace, Suit::Spades, false),
        Card::new(Rank::Two, Suit::Clubs, false),
        Card::new(Rank::Three, Suit::Diamonds, false),
        Card::new(Rank::Four, Suit::Hearts, false),
        Card::new(Rank::Five, Suit::Spades, false),
        Card::new(Rank::Seven, Suit::Clubs, false),
        Card::new(Rank::Ten, Suit::Spades, false)
    ];
    let hand2 = Hand::new(cards2);
    assert!(hand1 < hand2);
}

#[test]
fn test_ordering_seven_cards_2() {
    let cards1 = vec![
        Card::new(Rank::Ace, Suit::Spades, false),
        Card::new(Rank::Ace, Suit::Diamonds, false),
        Card::new(Rank::Two, Suit::Spades, false),
        Card::new(Rank::Four, Suit::Hearts, false),
        Card::new(Rank::Six, Suit::Clubs, false),
        Card::new(Rank::Eight, Suit::Clubs, false),
        Card::new(Rank::Ten, Suit::Diamonds, false)
    ];
    let hand1 = Hand::new(cards1);
    let cards2 = vec![
        Card::new(Rank::Ace, Suit::Spades, false),
        Card::new(Rank::Three, Suit::Diamonds, false),
        Card::new(Rank::Four, Suit::Hearts, false),
        Card::new(Rank::Five, Suit::Spades, false),
        Card::new(Rank::Seven, Suit::Clubs, false),
        Card::new(Rank::Ten, Suit::Spades, false),
        Card::new(Rank::Six, Suit::Hearts, false)
    ];
    let hand2 = Hand::new(cards2);
    assert!(hand1 < hand2);
}

#[test]
fn test_ordering_seven_cards_3() {
    let cards1 = vec![
        Card::new(Rank::Ace, Suit::Spades, false),
        Card::new(Rank::Ace, Suit::Diamonds, false),
        Card::new(Rank::Ace, Suit::Spades, false),
        Card::new(Rank::Ace, Suit::Hearts, false),
        Card::new(Rank::Six, Suit::Clubs, false),
        Card::new(Rank::Eight, Suit::Clubs, false),
        Card::new(Rank::Ten, Suit::Diamonds, false)
    ];
    let hand1 = Hand::new(cards1);
    let cards2 = vec![
        Card::new(Rank::Ace, Suit::Spades, false),
        Card::new(Rank::Three, Suit::Diamonds, false),
        Card::new(Rank::Four, Suit::Hearts, false),
        Card::new(Rank::Five, Suit::Spades, false),
        Card::new(Rank::Seven, Suit::Clubs, false),
        Card::new(Rank::Ten, Suit::Spades, false),
        Card::new(Rank::Six, Suit::Hearts, false)
    ];
    let hand2 = Hand::new(cards2);
    assert!(hand1 > hand2);
}

#[test]
fn test_ordering_seven_cards_4() {
    let cards1 = vec![
        Card::new(Rank::Ace, Suit::Spades, false),
        Card::new(Rank::Ace, Suit::Spades, false),
        Card::new(Rank::Two, Suit::Hearts, false),
        Card::new(Rank::Eight, Suit::Clubs, false),
        Card::new(Rank::Two, Suit::Clubs, false),
        Card::new(Rank::Ace, Suit::Diamonds, false),
        Card::new(Rank::Ten, Suit::Diamonds, false)
    ];
    let hand1 = Hand::new(cards1);
    let cards2 = vec![
        Card::new(Rank::Ace, Suit::Spades, false),
        Card::new(Rank::Three, Suit::Spades, false),
        Card::new(Rank::Four, Suit::Hearts, false),
        Card::new(Rank::Five, Suit::Spades, false),
        Card::new(Rank::Seven, Suit::Clubs, false),
        Card::new(Rank::Ten, Suit::Spades, false),
        Card::new(Rank::Six, Suit::Spades, false)
    ];
    let hand2 = Hand::new(cards2);
    assert!(hand1 > hand2);
}

#[test]
fn test_ordering_seven_cards_5() {
    let cards1 = vec![
        Card::new(Rank::Ace, Suit::Spades, false),
        Card::new(Rank::Ace, Suit::Diamonds, false),
        Card::new(Rank::Two, Suit::Hearts, false),
        Card::new(Rank::Four, Suit::Clubs, false),
        Card::new(Rank::Ace, Suit::Clubs, false),
        Card::new(Rank::Eight, Suit::Clubs, false),
        Card::new(Rank::Ten, Suit::Diamonds, false)
    ];
    let hand1 = Hand::new(cards1);
    let cards2 = vec![
        Card::new(Rank::Ace, Suit::Spades, false),
        Card::new(Rank::Three, Suit::Hearts, false),
        Card::new(Rank::Four, Suit::Hearts, false),
        Card::new(Rank::Five, Suit::Spades, false),
        Card::new(Rank::Seven, Suit::Clubs, false),
        Card::new(Rank::Ten, Suit::Spades, false),
        Card::new(Rank::Six, Suit::Spades, false)
    ];
    let hand2 = Hand::new(cards2);
    assert!(hand1 < hand2);
}

#[test]
fn test_ordering_seven_cards_6() {
    let cards1 = vec![
        Card::new(Rank::Ace, Suit::Spades, false),
        Card::new(Rank::Ace, Suit::Diamonds, false),
        Card::new(Rank::Four, Suit::Clubs, false),
        Card::new(Rank::Ace, Suit::Clubs, false),
        Card::new(Rank::Eight, Suit::Clubs, false),
        Card::new(Rank::Ace, Suit::Hearts, false),
        Card::new(Rank::Ten, Suit::Diamonds, false)
    ];
    let hand1 = Hand::new(cards1);
    let cards2 = vec![
        Card::new(Rank::Ace, Suit::Spades, false),
        Card::new(Rank::Three, Suit::Hearts, false),
        Card::new(Rank::Four, Suit::Hearts, false),
        Card::new(Rank::Five, Suit::Hearts, false),
        Card::new(Rank::Seven, Suit::Hearts, false),
        Card::new(Rank::Ten, Suit::Spades, false),
        Card::new(Rank::Six, Suit::Hearts, false)
    ];
    let hand2 = Hand::new(cards2);
    assert!(hand1 < hand2);
}

#[test]
fn test_ordering_seven_cards_high_card_to_one_pair() {
    let high_card = Hand::new(vec![
        Card::new(Rank::Three, Suit::Diamonds, false),
        Card::new(Rank::Two, Suit::Spades, false),
        Card::new(Rank::Four, Suit::Clubs, false),
        Card::new(Rank::Six, Suit::Clubs, false),
        Card::new(Rank::Eight, Suit::Clubs, false),
        Card::new(Rank::Seven, Suit::Hearts, false),
        Card::new(Rank::Ten, Suit::Diamonds, false)
    ]);
    let one_pair = Hand::new(vec![
        Card::new(Rank::Ace, Suit::Spades, false),
        Card::new(Rank::Queen, Suit::Hearts, false),
        Card::new(Rank::Eight, Suit::Hearts, false),
        Card::new(Rank::Five, Suit::Diamonds, false),
        Card::new(Rank::Seven, Suit::Hearts, false),
        Card::new(Rank::Ten, Suit::Spades, false),
        Card::new(Rank::Five, Suit::Clubs, false)
    ]);
    assert!(high_card < one_pair);
}

#[test]
fn test_ordering_seven_cards_one_pair_to_two_pair() {
    let one_pair = Hand::new(vec![
        Card::new(Rank::Ace, Suit::Spades, false),
        Card::new(Rank::Queen, Suit::Hearts, false),
        Card::new(Rank::Eight, Suit::Hearts, false),
        Card::new(Rank::Five, Suit::Diamonds, false),
        Card::new(Rank::Seven, Suit::Hearts, false),
        Card::new(Rank::Ten, Suit::Spades, false),
        Card::new(Rank::Five, Suit::Clubs, false)
    ]);
    let two_pair = Hand::new(vec![
        Card::new(Rank::Three, Suit::Diamonds, false),
        Card::new(Rank::Two, Suit::Spades, false),
        Card::new(Rank::Three, Suit::Clubs, false),
        Card::new(Rank::Two, Suit::Clubs, false),
        Card::new(Rank::Eight, Suit::Clubs, false),
        Card::new(Rank::Seven, Suit::Hearts, false),
        Card::new(Rank::Ten, Suit::Diamonds, false)
    ]);
    assert!(one_pair < two_pair);
}

#[test]
fn test_ordering_seven_cards_two_pair_to_three_of_a_kind() {
    let two_pair = Hand::new(vec![
        Card::new(Rank::Three, Suit::Diamonds, false),
        Card::new(Rank::Four, Suit::Spades, false),
        Card::new(Rank::Three, Suit::Clubs, false),
        Card::new(Rank::Four, Suit::Clubs, false),
        Card::new(Rank::Eight, Suit::Clubs, false),
        Card::new(Rank::Seven, Suit::Hearts, false),
        Card::new(Rank::Ten, Suit::Diamonds, false)
    ]);
    let three_of_a_kind = Hand::new(vec![
        Card::new(Rank::Two, Suit::Spades, false),
        Card::new(Rank::Queen, Suit::Hearts, false),
        Card::new(Rank::Eight, Suit::Hearts, false),
        Card::new(Rank::Two, Suit::Diamonds, false),
        Card::new(Rank::Seven, Suit::Hearts, false),
        Card::new(Rank::Ten, Suit::Spades, false),
        Card::new(Rank::Two, Suit::Clubs, false)
    ]);
    assert!(two_pair < three_of_a_kind);
}

#[test]
fn test_ordering_seven_cards_three_of_a_kind_to_straight() {
    let three_of_a_kind = Hand::new(vec![
        Card::new(Rank::Nine, Suit::Spades, false),
        Card::new(Rank::Three, Suit::Hearts, false),
        Card::new(Rank::Eight, Suit::Hearts, false),
        Card::new(Rank::Nine, Suit::Diamonds, false),
        Card::new(Rank::Seven, Suit::Hearts, false),
        Card::new(Rank::Ten, Suit::Spades, false),
        Card::new(Rank::Nine, Suit::Clubs, false)
    ]);
    let straight = Hand::new(vec![
        Card::new(Rank::Two, Suit::Diamonds, false),
        Card::new(Rank::Four, Suit::Spades, false),
        Card::new(Rank::Three, Suit::Clubs, false),
        Card::new(Rank::Four, Suit::Clubs, false),
        Card::new(Rank::Six, Suit::Clubs, false),
        Card::new(Rank::Five, Suit::Hearts, false),
        Card::new(Rank::Ten, Suit::Diamonds, false)
    ]);
    assert!(three_of_a_kind < straight);
}

#[test]
fn test_ordering_seven_cards_straight_to_flush() {
    let straight = Hand::new(vec![
        Card::new(Rank::Two, Suit::Diamonds, false),
        Card::new(Rank::Four, Suit::Spades, false),
        Card::new(Rank::Three, Suit::Clubs, false),
        Card::new(Rank::Four, Suit::Clubs, false),
        Card::new(Rank::Six, Suit::Clubs, false),
        Card::new(Rank::Five, Suit::Hearts, false),
        Card::new(Rank::Ten, Suit::Diamonds, false)
    ]);
    let flush = Hand::new(vec![
        Card::new(Rank::Nine, Suit::Hearts, false),
        Card::new(Rank::Three, Suit::Hearts, false),
        Card::new(Rank::Eight, Suit::Hearts, false),
        Card::new(Rank::Nine, Suit::Diamonds, false),
        Card::new(Rank::Seven, Suit::Hearts, false),
        Card::new(Rank::Ten, Suit::Hearts, false),
        Card::new(Rank::Nine, Suit::Clubs, false)
    ]);
    assert!(straight < flush);
}

#[test]
fn test_ordering_seven_cards_flush_to_full_house() {
    let flush = Hand::new(vec![
        Card::new(Rank::Nine, Suit::Hearts, false),
        Card::new(Rank::Three, Suit::Hearts, false),
        Card::new(Rank::Eight, Suit::Hearts, false),
        Card::new(Rank::Nine, Suit::Diamonds, false),
        Card::new(Rank::Seven, Suit::Hearts, false),
        Card::new(Rank::Ten, Suit::Hearts, false),
        Card::new(Rank::Nine, Suit::Clubs, false)
    ]);
    let full_house = Hand::new(vec![
        Card::new(Rank::Nine, Suit::Spades, false),
        Card::new(Rank::Three, Suit::Hearts, false),
        Card::new(Rank::Eight, Suit::Spades, false),
        Card::new(Rank::Nine, Suit::Diamonds, false),
        Card::new(Rank::Eight, Suit::Hearts, false),
        Card::new(Rank::Ten, Suit::Spades, false),
        Card::new(Rank::Nine, Suit::Clubs, false)
    ]);
    assert!(flush < full_house);
}

#[test]
fn test_ordering_seven_cards_full_house_to_four_of_a_kind() {
    let full_house = Hand::new(vec![
        Card::new(Rank::Nine, Suit::Spades, false),
        Card::new(Rank::Three, Suit::Hearts, false),
        Card::new(Rank::Eight, Suit::Spades, false),
        Card::new(Rank::Nine, Suit::Diamonds, false),
        Card::new(Rank::Eight, Suit::Hearts, false),
        Card::new(Rank::Ten, Suit::Spades, false),
        Card::new(Rank::Nine, Suit::Clubs, false)
    ]);
    let four_of_a_kind = Hand::new(vec![
        Card::new(Rank::Nine, Suit::Hearts, false),
        Card::new(Rank::Three, Suit::Hearts, false),
        Card::new(Rank::Nine, Suit::Spades, false),
        Card::new(Rank::Nine, Suit::Diamonds, false),
        Card::new(Rank::Seven, Suit::Hearts, false),
        Card::new(Rank::Ten, Suit::Hearts, false),
        Card::new(Rank::Nine, Suit::Clubs, false)
    ]);
    assert!(full_house < four_of_a_kind);
}

#[test]
fn test_ordering_seven_cards_four_of_a_kind_to_straight_flush() {
    let four_of_a_kind = Hand::new(vec![
        Card::new(Rank::Nine, Suit::Hearts, false),
        Card::new(Rank::Three, Suit::Hearts, false),
        Card::new(Rank::Nine, Suit::Spades, false),
        Card::new(Rank::Nine, Suit::Diamonds, false),
        Card::new(Rank::Seven, Suit::Hearts, false),
        Card::new(Rank::Ten, Suit::Hearts, false),
        Card::new(Rank::Nine, Suit::Clubs, false)
    ]);
    let straight_flush = Hand::new(vec![
        Card::new(Rank::Two, Suit::Spades, false),
        Card::new(Rank::Four, Suit::Spades, false),
        Card::new(Rank::Three, Suit::Spades, false),
        Card::new(Rank::Four, Suit::Clubs, false),
        Card::new(Rank::Six, Suit::Spades, false),
        Card::new(Rank::Five, Suit::Spades, false),
        Card::new(Rank::Ten, Suit::Diamonds, false)
    ]);
    assert!(four_of_a_kind < straight_flush);
}

#[test]
fn test_ordering_seven_cards_straight_flush_to_royal_flush() {
    let straight_flush = Hand::new(vec![
        Card::new(Rank::Two, Suit::Spades, false),
        Card::new(Rank::Four, Suit::Spades, false),
        Card::new(Rank::Three, Suit::Spades, false),
        Card::new(Rank::Four, Suit::Clubs, false),
        Card::new(Rank::Six, Suit::Spades, false),
        Card::new(Rank::Five, Suit::Spades, false),
        Card::new(Rank::Ten, Suit::Diamonds, false)
    ]);
    let royal_flush = Hand::new(vec![
        Card::new(Rank::Ace, Suit::Spades, false),
        Card::new(Rank::Ten, Suit::Spades, false),
        Card::new(Rank::Five, Suit::Clubs, false),
        Card::new(Rank::Queen, Suit::Spades, false),
        Card::new(Rank::King, Suit::Spades, false),
        Card::new(Rank::Ten, Suit::Diamonds, false),
        Card::new(Rank::Jack, Suit::Spades, false)
    ]);
    assert!(straight_flush < royal_flush);
}

#[test]
fn test_ordering_seven_cards_two_pair_to_two_pair_with_kicker() {
    let two_pair_high_kicker = Hand::new(vec![
        Card::new(Rank::Three, Suit::Diamonds, false),
        Card::new(Rank::Two, Suit::Spades, false),
        Card::new(Rank::Three, Suit::Clubs, false),
        Card::new(Rank::Two, Suit::Clubs, false),
        Card::new(Rank::Eight, Suit::Clubs, false),
        Card::new(Rank::Seven, Suit::Hearts, false),
        Card::new(Rank::Ten, Suit::Diamonds, false)
    ]);
    let two_pair_low_kicker = Hand::new(vec![
        Card::new(Rank::Three, Suit::Diamonds, false),
        Card::new(Rank::Two, Suit::Spades, false),
        Card::new(Rank::Three, Suit::Clubs, false),
        Card::new(Rank::Two, Suit::Clubs, false),
        Card::new(Rank::Eight, Suit::Clubs, false),
        Card::new(Rank::Seven, Suit::Hearts, false),
        Card::new(Rank::Four, Suit::Diamonds, false)
    ]);
    assert!(two_pair_low_kicker < two_pair_high_kicker);
    assert!(two_pair_low_kicker != two_pair_high_kicker);
}

#[test]
fn test_ordering_seven_cards_one_pair_to_one_pair_with_kicker() {
    let one_pair_high_kicker = Hand::new(vec![
        Card::new(Rank::Three, Suit::Diamonds, false),
        Card::new(Rank::Two, Suit::Spades, false),
        Card::new(Rank::Ace, Suit::Clubs, false),
        Card::new(Rank::Two, Suit::Clubs, false),
        Card::new(Rank::Eight, Suit::Clubs, false),
        Card::new(Rank::Seven, Suit::Hearts, false),
        Card::new(Rank::Ten, Suit::Diamonds, false)
    ]);
    let one_pair_low_kicker = Hand::new(vec![
        Card::new(Rank::Three, Suit::Diamonds, false),
        Card::new(Rank::Two, Suit::Spades, false),
        Card::new(Rank::King, Suit::Clubs, false),
        Card::new(Rank::Two, Suit::Clubs, false),
        Card::new(Rank::Eight, Suit::Clubs, false),
        Card::new(Rank::Seven, Suit::Hearts, false),
        Card::new(Rank::Four, Suit::Diamonds, false)
    ]);
    assert!(one_pair_low_kicker < one_pair_high_kicker);
    assert!(one_pair_low_kicker != one_pair_high_kicker);
}

#[test]
fn test_ordering_seven_cards_three_of_a_kind_to_three_of_a_kind_with_kicker() {
    let two_pair_high_kicker = Hand::new(vec![
        Card::new(Rank::Three, Suit::Diamonds, false),
        Card::new(Rank::Three, Suit::Spades, false),
        Card::new(Rank::Three, Suit::Clubs, false),
        Card::new(Rank::Two, Suit::Clubs, false),
        Card::new(Rank::Eight, Suit::Clubs, false),
        Card::new(Rank::Seven, Suit::Hearts, false),
        Card::new(Rank::Ten, Suit::Diamonds, false)
    ]);
    let two_pair_low_kicker = Hand::new(vec![
        Card::new(Rank::Three, Suit::Diamonds, false),
        Card::new(Rank::Three, Suit::Spades, false),
        Card::new(Rank::Three, Suit::Clubs, false),
        Card::new(Rank::Two, Suit::Clubs, false),
        Card::new(Rank::Eight, Suit::Clubs, false),
        Card::new(Rank::Seven, Suit::Hearts, false),
        Card::new(Rank::Four, Suit::Diamonds, false)
    ]);
    assert!(two_pair_low_kicker < two_pair_high_kicker);
    assert!(two_pair_low_kicker != two_pair_high_kicker);
}

#[test]
fn test_ordering_seven_cards_two_pair_to_two_pair_equal() {
    let two_pair1 = Hand::new(vec![
        Card::new(Rank::Three, Suit::Diamonds, false),
        Card::new(Rank::Two, Suit::Spades, false),
        Card::new(Rank::Three, Suit::Clubs, false),
        Card::new(Rank::Two, Suit::Clubs, false),
        Card::new(Rank::Eight, Suit::Clubs, false),
        Card::new(Rank::Seven, Suit::Hearts, false),
        Card::new(Rank::Ten, Suit::Diamonds, false)
    ]);
    let two_pair2 = Hand::new(vec![
        Card::new(Rank::Three, Suit::Diamonds, false),
        Card::new(Rank::Two, Suit::Spades, false),
        Card::new(Rank::Three, Suit::Clubs, false),
        Card::new(Rank::Two, Suit::Clubs, false),
        Card::new(Rank::Ten, Suit::Clubs, false),
        Card::new(Rank::Seven, Suit::Hearts, false),
        Card::new(Rank::Eight, Suit::Diamonds, false)
    ]);
    let pair1 = Hand::rank_hand(two_pair1.cards());
    let pair2 = Hand::rank_hand(two_pair2.cards());
    assert!(!(pair1 < pair2));
    assert!(!(pair2 < pair1));
    assert!(pair1 == pair2);
}

#[test]
fn test_ordering_five_cards_one_pair_equal() {
    let two_pair1 = Hand::new(vec![
        Card::new(Rank::Three, Suit::Diamonds, false),
        Card::new(Rank::Two, Suit::Spades, false),
        Card::new(Rank::Three, Suit::Clubs, false),
        Card::new(Rank::Two, Suit::Clubs, false),
        Card::new(Rank::Eight, Suit::Clubs, false)
    ]);
    let two_pair2 = Hand::new(vec![
        Card::new(Rank::Three, Suit::Diamonds, false),
        Card::new(Rank::Two, Suit::Spades, false),
        Card::new(Rank::Three, Suit::Hearts, false),
        Card::new(Rank::Two, Suit::Diamonds, false),
        Card::new(Rank::Eight, Suit::Hearts, false)
    ]);
    let pair1 = Hand::rank_hand(two_pair1.cards());
    let pair2 = Hand::rank_hand(two_pair2.cards());
    assert!(!(pair1 < pair2));
    assert!(!(pair2 < pair1));
    assert!(pair1 == pair2);
}

#[test]
fn test_ordering_two_cards_equal() {
    let high_card1 = Hand::new(vec![
        Card::new(Rank::Five, Suit::Diamonds, false),
        Card::new(Rank::Nine, Suit::Hearts, false)
    ]);
    let high_card2 = Hand::new(vec![
        Card::new(Rank::Five, Suit::Spades, false),
        Card::new(Rank::Nine, Suit::Spades, false)
    ]);
    println!("high card 1 - {:?}", high_card1);
    println!("high card 2 - {:?}", high_card2);
    let high1 = Hand::rank_hand(high_card1.cards());
    let high2 = Hand::rank_hand(high_card2.cards());
    assert!(!(high1 < high2));
    assert!(!(high2 < high1));
    assert!(high1 == high2);
}

#[test]
fn test_ordering_two_cards_with_kicker() {
    let high_card1 = Hand::new(vec![
        Card::new(Rank::Five, Suit::Spades, false),
        Card::new(Rank::Nine, Suit::Spades, false)
    ]);
    let high_card2 = Hand::new(vec![
        Card::new(Rank::Six, Suit::Diamonds, false),
        Card::new(Rank::Nine, Suit::Hearts, false)
    ]);
    assert!(high_card1 < high_card2);
    assert!(high_card1 != high_card2);
}


fn card(rank: Rank, suit: Suit) -> Card {
    Card::new(rank, suit, false)
}

#[test]
fn straight_named_by_its_own_top_card() {
    let cards = vec![
        card(Rank::Two, Suit::Diamonds),
        card(Rank::Three, Suit::Clubs),
        card(Rank::Four, Suit::Spades),
        card(Rank::Five, Suit::Hearts),
        card(Rank::Six, Suit::Clubs),
        card(Rank::Nine, Suit::Diamonds),
        card(Rank::King, Suit::Spades),
    ];
    assert_eq!(Hand::rank_hand(&cards), HandRank::Straight(Rank::Six));
}

#[test]
fn ace_low_run_with_a_six_is_six_high() {
    let cards = vec![
        card(Rank::Ace, Suit::Diamonds),
        card(Rank::Two, Suit::Clubs),
        card(Rank::Three, Suit::Spades),
        card(Rank::Four, Suit::Hearts),
        card(Rank::Five, Suit::Clubs),
        card(Rank::Six, Suit::Diamonds),
    ];
    assert_eq!(Hand::rank_hand(&cards), HandRank::Straight(Rank::Six));
}

#[test]
fn two_threes_of_a_kind_make_a_full_house() {
    let cards = vec![
        card(Rank::Nine, Suit::Diamonds),
        card(Rank::Nine, Suit::Clubs),
        card(Rank::Nine, Suit::Spades),
        card(Rank::Eight, Suit::Hearts),
        card(Rank::Eight, Suit::Clubs),
        card(Rank::Eight, Suit::Diamonds),
        card(Rank::Ten, Suit::Spades),
    ];
    assert_eq!(Hand::rank_hand(&cards), HandRank::FullHouse(Rank::Nine, Rank::Eight));
}

#[test]
fn stray_ace_beside_king_high_straight_flush() {
    let cards = vec![
        card(Rank::Nine, Suit::Hearts),
        card(Rank::Ten, Suit::Hearts),
        card(Rank::Jack, Suit::Hearts),
        card(Rank::Queen, Suit::Hearts),
        card(Rank::King, Suit::Hearts),
        card(Rank::Ace, Suit::Spades),
        card(Rank::Two, Suit::Clubs),
    ];
    assert_eq!(Hand::rank_hand(&cards), HandRank::StraightFlush(Rank::King));
}

#[test]
fn three_pairs_take_the_third_pair_as_kicker() {
    let cards = vec![
        card(Rank::King, Suit::Hearts),
        card(Rank::King, Suit::Clubs),
        card(Rank::Queen, Suit::Hearts),
        card(Rank::Queen, Suit::Spades),
        card(Rank::Jack, Suit::Diamonds),
        card(Rank::Jack, Suit::Clubs),
        card(Rank::Two, Suit::Spades),
    ];
    assert_eq!(Hand::rank_hand(&cards), HandRank::TwoPair(Rank::King, Rank::Queen, Rank::Jack));
}

#[test]
fn seven_card_high_card_keeps_four_kickers() {
    let cards = vec![
        card(Rank::Two, Suit::Hearts),
        card(Rank::Four, Suit::Clubs),
        card(Rank::Six, Suit::Hearts),
        card(Rank::Eight, Suit::Spades),
        card(Rank::Ten, Suit::Diamonds),
        card(Rank::Queen, Suit::Clubs),
        card(Rank::King, Suit::Spades),
    ];
    assert_eq!(
        Hand::rank_hand(&cards),
        HandRank::HighCard(Rank::King, vec![Rank::Queen, Rank::Ten, Rank::Eight, Rank::Six])
    );
}

#[test]
fn ace_low_straight_flush_is_five_high() {
    let cards = vec![
        card(Rank::Ace, Suit::Clubs),
        card(Rank::Two, Suit::Clubs),
        card(Rank::Three, Suit::Clubs),
        card(Rank::Four, Suit::Clubs),
        card(Rank::Five, Suit::Clubs),
        card(Rank::King, Suit::Hearts),
    ];
    assert_eq!(Hand::rank_hand(&cards), HandRank::StraightFlush(Rank::Five));
}

#[test]
fn flush_named_by_the_cards_of_its_suit() {
    let cards = vec![
        card(Rank::Ace, Suit::Spades),
        card(Rank::Two, Suit::Hearts),
        card(Rank::Five, Suit::Hearts),
        card(Rank::Seven, Suit::Hearts),
        card(Rank::Nine, Suit::Hearts),
        card(Rank::Jack, Suit::Hearts),
        card(Rank::King, Suit::Diamonds),
    ];
    assert_eq!(
        Hand::rank_hand(&cards),
        HandRank::Flush(Rank::Jack, vec![Rank::Nine, Rank::Seven, Rank::Five, Rank::Two])
    );
}
