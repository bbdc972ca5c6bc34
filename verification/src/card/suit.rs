use vstd::prelude::*;

verus! {

/// Suit of a card (shape and colour).
#[derive(Debug, Clone, Copy, PartialEq, Eq, Structural, Hash)]
pub enum Suit {
    Clubs,
    Spades,
    Hearts,
    Diamonds,
}

impl Suit {
    /// Clubs and Spades are black.
    pub open spec fn black(self) -> bool {
        self == Suit::Clubs || self == Suit::Spades
    }

    /// Hearts and Diamonds are red.
    pub open spec fn red(self) -> bool {
        self == Suit::Hearts || self == Suit::Diamonds
    }

    /// Position of the suit in the order Clubs, Spades, Hearts, Diamonds.
    pub open spec fn index(self) -> int {
        match self {
            Suit::Clubs => 0,
            Suit::Spades => 1,
            Suit::Hearts => 2,
            Suit::Diamonds => 3,
        }
    }

    /// true if Suit is Clubs or Spades
    pub fn is_black(&self) -> (r: bool)
        ensures
            r == self.black(),
    {
        match self {
            Suit::Clubs | Suit::Spades => true,
            _ => false,
        }
    }

    /// true if Suit is Hearts or Diamonds
    pub fn is_red(&self) -> (r: bool)
        ensures
            r == self.red(),
    {
        match self {
            Suit::Hearts | Suit::Diamonds => true,
            _ => false,
        }
    }

    /// Position of the suit in the order Clubs, Spades, Hearts, Diamonds.
    pub fn to_index(&self) -> (r: usize)
        ensures
            r as int == self.index(),
    {
        match self {
            Suit::Clubs => 0,
            Suit::Spades => 1,
            Suit::Hearts => 2,
            Suit::Diamonds => 3,
        }
    }
}

/// The suit at position `i` in the order Clubs, Spades, Hearts, Diamonds.
pub open spec fn suit_of_index(i: int) -> Suit {
    if i == 0 {
        Suit::Clubs
    } else if i == 1 {
        Suit::Spades
    } else if i == 2 {
        Suit::Hearts
    } else {
        Suit::Diamonds
    }
}

impl Suit {
    /// The suit at position `i` in the order Clubs, Spades, Hearts, Diamonds.
    pub fn from_index(i: usize) -> (s: Suit)
        requires
            i < 4,
        ensures
            s == suit_of_index(i as int),
            s.index() == i as int,
    {
        if i == 0 {
            Suit::Clubs
        } else if i == 1 {
            Suit::Spades
        } else if i == 2 {
            Suit::Hearts
        } else {
            Suit::Diamonds
        }
    }
}

/// Every suit is exactly one of black and red.
pub proof fn lemma_suit_one_colour(s: Suit)
    ensures
        s.black() != s.red(),
{
}

/// Distinct suits have distinct indices in 0..4.
pub proof fn lemma_suit_index(s: Suit, t: Suit)
    ensures
        0 <= s.index() < 4,
        s.index() == t.index() <==> s == t,
{
}

} // verus!
