use vstd::prelude::*;
use std::cmp::Ordering;
use vstd::std_specs::cmp::PartialEqSpecImpl;
use vstd::std_specs::cmp::PartialOrdSpecImpl;

mod rank;
mod suit;

pub use rank::{Rank, rank_of_value, lemma_rank_value, lemma_value_rank, lemma_number_xor_face};
pub use suit::{Suit, suit_of_index, lemma_suit_one_colour, lemma_suit_index};

verus! {

/// Card class, containing a rank, a suit, and whether it lies face up.
/// Two cards are equal when their rank and suit are equal; which way up they lie
/// does not matter for equality.
#[derive(Debug, Clone, Copy)]
pub struct Card {
    rank: Rank,
    suit: Suit,
    is_face_up: bool,
}

/// What a card is: its rank, its suit, and whether it lies face up.
pub struct CardView {
    pub rank: Rank,
    pub suit: Suit,
    pub face_up: bool,
}

impl View for Card {
    type V = CardView;

    closed spec fn view(&self) -> CardView {
        CardView { rank: self.rank, suit: self.suit, face_up: self.is_face_up }
    }
}

/// The card `c` turned face up.
pub closed spec fn face_up_card(c: Card) -> Card {
    Card { is_face_up: true, ..c }
}

/// A card turned face up keeps its rank and suit.
pub proof fn lemma_face_up_card()
    ensures
        forall|c: Card| #[trigger] face_up_card(c)@ == (CardView { face_up: true, ..c@ }),
{
}

/// Two cards are the same card when rank and suit agree.
pub open spec fn same_card(a: CardView, b: CardView) -> bool {
    a.rank == b.rank && a.suit == b.suit
}

impl Card {
    /// Constructor for Card.
    pub fn new(rank: Rank, suit: Suit, is_face_up: bool) -> (card: Card)
        ensures
            card@ == (CardView { rank, suit, face_up: is_face_up }),
    {
        Card { rank, suit, is_face_up }
    }

    /// Get the Rank of this Card
    pub fn rank(&self) -> (r: &Rank)
        ensures
            *r == self@.rank,
    {
        &self.rank
    }

    /// Get the Suit of this Card
    pub fn suit(&self) -> (s: &Suit)
        ensures
            *s == self@.suit,
    {
        &self.suit
    }

    /// true if Card's Rank is a number (Aces included)
    pub fn is_number(&self) -> (r: bool)
        ensures
            r == (self@.rank.value() <= 10 || self@.rank == Rank::Ace),
    {
        self.rank.is_number()
    }

    /// true if Card's Rank is a face (Jack, Queen or King)
    pub fn is_face(&self) -> (r: bool)
        ensures
            r == self@.rank.face(),
    {
        self.rank.is_face()
    }

    /// true if Card's Suit is Clubs or Spades
    pub fn is_black(&self) -> (r: bool)
        ensures
            r == self@.suit.black(),
    {
        self.suit.is_black()
    }

    /// true if Card's Suit is Hearts or Diamonds
    pub fn is_red(&self) -> (r: bool)
        ensures
            r == self@.suit.red(),
    {
        self.suit.is_red()
    }

    /// true if Card is face up
    pub fn is_face_up(&self) -> (r: bool)
        ensures
            r == self@.face_up,
    {
        self.is_face_up
    }

    /// allow the dealer to flip cards over as necessary
    pub fn set_face_up(&mut self, is_face_up: bool)
        ensures
            final(self)@ == (CardView { face_up: is_face_up, ..old(self)@ }),
    {
        self.is_face_up = is_face_up;
    }

    /// true if both cards have the same rank and suit
    pub fn same_as(&self, other: &Card) -> (r: bool)
        ensures
            r == same_card(self@, other@),
    {
        self.rank == other.rank && self.suit == other.suit
    }
}

/// A card is determined by its view.
pub proof fn lemma_card_view_injective(a: Card, b: Card)
    requires
        a@ == b@,
    ensures
        a == b,
{
}

impl PartialEq for Card {
    fn eq(&self, other: &Self) -> (r: bool) {
        self.rank == other.rank && self.suit == other.suit
    }
}

impl PartialEqSpecImpl for Card {
    open spec fn obeys_eq_spec() -> bool {
        true
    }

    open spec fn eq_spec(&self, other: &Card) -> bool {
        same_card(self@, other@)
    }
}

impl Eq for Card {}

impl PartialOrd for Card {
    fn partial_cmp(&self, other: &Self) -> (r: Option<Ordering>) {
        self.rank.partial_cmp(&other.rank)
    }
}

impl PartialOrdSpecImpl for Card {
    open spec fn obeys_partial_cmp_spec() -> bool {
        true
    }

    open spec fn partial_cmp_spec(&self, other: &Card) -> Option<Ordering> {
        if self@.rank.value() == other@.rank.value() {
            Some(Ordering::Equal)
        } else if self@.rank.value() > other@.rank.value() {
            Some(Ordering::Greater)
        } else {
            Some(Ordering::Less)
        }
    }
}

} // verus!
