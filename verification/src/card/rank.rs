use vstd::prelude::*;
use std::cmp::Ordering;
use vstd::std_specs::cmp::PartialOrdSpecImpl;

verus! {

/// Rank of a card (its number or face), from Two up to Ace.
/// Aces rank highest; the derived `Ord` follows the declaration order,
/// which is the same order as `partial_cmp` and `to_u8`.
#[derive(Debug, Clone, Copy, PartialEq, Eq, Structural, Ord, Hash)]
pub enum Rank {
    Two,
    Three,
    Four,
    Five,
    Six,
    Seven,
    Eight,
    Nine,
    Ten,
    Jack,
    Queen,
    King,
    Ace,
}

/// The rank whose numeric value is `v` (2 for Two up to 14 for Ace).
pub open spec fn rank_of_value(v: int) -> Rank
    recommends
        2 <= v <= 14,
{
    if v == 2 {
        Rank::Two
    } else if v == 3 {
        Rank::Three
    } else if v == 4 {
        Rank::Four
    } else if v == 5 {
        Rank::Five
    } else if v == 6 {
        Rank::Six
    } else if v == 7 {
        Rank::Seven
    } else if v == 8 {
        Rank::Eight
    } else if v == 9 {
        Rank::Nine
    } else if v == 10 {
        Rank::Ten
    } else if v == 11 {
        Rank::Jack
    } else if v == 12 {
        Rank::Queen
    } else if v == 13 {
        Rank::King
    } else {
        Rank::Ace
    }
}

impl Rank {
    /// Numeric value of the rank: 2 to 10 for number cards, 11 Jack, 12 Queen, 13 King, 14 Ace.
    pub open spec fn value(self) -> int {
        match self {
            Rank::Two => 2,
            Rank::Three => 3,
            Rank::Four => 4,
            Rank::Five => 5,
            Rank::Six => 6,
            Rank::Seven => 7,
            Rank::Eight => 8,
            Rank::Nine => 9,
            Rank::Ten => 10,
            Rank::Jack => 11,
            Rank::Queen => 12,
            Rank::King => 13,
            Rank::Ace => 14,
        }
    }

    /// A face is a Jack, Queen or King.
    pub open spec fn face(self) -> bool {
        11 <= self.value() <= 13
    }

    /// true if Rank is a number; Aces count as numbers, faces do not.
    pub fn is_number(&self) -> (r: bool)
        ensures
            r == (self.value() <= 10 || *self == Rank::Ace),
    {
        match self {
            Rank::Jack | Rank::Queen | Rank::King => false,
            _ => true,
        }
    }

    /// true if Rank is a face (Jack, Queen or King)
    pub fn is_face(&self) -> (r: bool)
        ensures
            r == self.face(),
    {
        match self {
            Rank::Jack | Rank::Queen | Rank::King => true,
            _ => false,
        }
    }

    /// convert ranks to numbers for easy comparing
    pub fn to_u8(&self) -> (r: u8)
        ensures
            r as int == self.value(),
    {
        match self {
            Rank::Two => 2,
            Rank::Three => 3,
            Rank::Four => 4,
            Rank::Five => 5,
            Rank::Six => 6,
            Rank::Seven => 7,
            Rank::Eight => 8,
            Rank::Nine => 9,
            Rank::Ten => 10,
            Rank::Jack => 11,
            Rank::Queen => 12,
            Rank::King => 13,
            Rank::Ace => 14,
        }
    }

    /// The rank with the given numeric value; values outside 2..=14 are not ranks.
    pub fn to_rank(value: u8) -> (r: Rank)
        requires
            2 <= value <= 14,
        ensures
            r.value() == value as int,
            r == rank_of_value(value as int),
    {
        match value {
            2 => Rank::Two,
            3 => Rank::Three,
            4 => Rank::Four,
            5 => Rank::Five,
            6 => Rank::Six,
            7 => Rank::Seven,
            8 => Rank::Eight,
            9 => Rank::Nine,
            10 => Rank::Ten,
            11 => Rank::Jack,
            12 => Rank::Queen,
            13 => Rank::King,
            _ => Rank::Ace,
        }
    }
}

/// Every rank's value lies in 2..=14, distinct ranks have distinct values,
/// and converting a rank to its value and back gives the same rank.
pub proof fn lemma_rank_value(r: Rank, s: Rank)
    ensures
        2 <= r.value() <= 14,
        rank_of_value(r.value()) == r,
        r.value() == s.value() <==> r == s,
{
}

/// Converting a value in 2..=14 to a rank and back gives the same value.
pub proof fn lemma_value_rank(v: int)
    requires
        2 <= v <= 14,
    ensures
        rank_of_value(v).value() == v,
{
}

/// Every rank is either a number (Aces included) or a face, never both.
pub proof fn lemma_number_xor_face(r: Rank)
    ensures
        (r.value() <= 10 || r == Rank::Ace) != r.face(),
{
}

impl PartialOrd for Rank {
    fn partial_cmp(&self, other: &Self) -> (r: Option<Ordering>) {
        let a = self.to_u8();
        let b = other.to_u8();
        if a == b {
            Some(Ordering::Equal)
        } else if a > b {
            Some(Ordering::Greater)
        } else {
            Some(Ordering::Less)
        }
    }
}

impl PartialOrdSpecImpl for Rank {
    open spec fn obeys_partial_cmp_spec() -> bool {
        true
    }

    open spec fn partial_cmp_spec(&self, other: &Rank) -> Option<Ordering> {
        if self.value() == other.value() {
            Some(Ordering::Equal)
        } else if self.value() > other.value() {
            Some(Ordering::Greater)
        } else {
            Some(Ordering::Less)
        }
    }
}

} // verus!
