use vstd::prelude::*;
use std::cmp::Ordering;
use vstd::std_specs::cmp::PartialEqSpecImpl;
use vstd::std_specs::cmp::PartialOrdSpecImpl;

use crate::card::{Card, Rank, same_card};
use super::{Hand, HandRank, HandRankSpec, rank_hand_defined, spec_rank_hand};

verus! {

/// Comparison of two ranks by value: -1, 0 or 1.
pub open spec fn rank_order(a: Rank, b: Rank) -> int {
    if a.value() < b.value() {
        -1
    } else if a.value() > b.value() {
        1
    } else {
        0
    }
}

/// Lexicographic comparison of two sequences of ranks: -1, 0 or 1;
/// a proper prefix comes first.
pub open spec fn ranks_order(a: Seq<Rank>, b: Seq<Rank>) -> int
    decreases a.len(),
{
    if a.len() == 0 {
        if b.len() == 0 {
            0
        } else {
            -1
        }
    } else if b.len() == 0 {
        1
    } else if rank_order(a[0], b[0]) != 0 {
        rank_order(a[0], b[0])
    } else {
        ranks_order(a.drop_first(), b.drop_first())
    }
}

/// The category of a classification, from 1 for a high card up to 10 for a royal flush.
pub open spec fn category(h: HandRankSpec) -> int {
    match h {
        HandRankSpec::HighCard(..) => 1,
        HandRankSpec::OnePair(..) => 2,
        HandRankSpec::TwoPair(..) => 3,
        HandRankSpec::ThreeOfAKind(..) => 4,
        HandRankSpec::Straight(..) => 5,
        HandRankSpec::Flush(..) => 6,
        HandRankSpec::FullHouse(..) => 7,
        HandRankSpec::FourOfAKind(..) => 8,
        HandRankSpec::StraightFlush(..) => 9,
        HandRankSpec::RoyalFlush => 10,
    }
}

/// Comparison of two classifications: -1, 0 or 1. The category decides first; within a
/// category the ranks named by the classification decide in order, then the kickers.
pub open spec fn hand_rank_order(a: HandRankSpec, b: HandRankSpec) -> int {
    if category(a) < category(b) {
        -1
    } else if category(a) > category(b) {
        1
    } else {
        match (a, b) {
            (HandRankSpec::HighCard(x, k1), HandRankSpec::HighCard(y, k2)) => if rank_order(x, y)
                != 0 {
                rank_order(x, y)
            } else {
                ranks_order(k1, k2)
            },
            (HandRankSpec::OnePair(x, k1), HandRankSpec::OnePair(y, k2)) => if rank_order(x, y)
                != 0 {
                rank_order(x, y)
            } else {
                ranks_order(k1, k2)
            },
            (HandRankSpec::TwoPair(x1, x2, k1), HandRankSpec::TwoPair(y1, y2, k2)) => if rank_order(
                x1,
                y1,
            ) != 0 {
                rank_order(x1, y1)
            } else if rank_order(x2, y2) != 0 {
                rank_order(x2, y2)
            } else {
                rank_order(k1, k2)
            },
            (HandRankSpec::ThreeOfAKind(x, k1), HandRankSpec::ThreeOfAKind(y, k2)) => if rank_order(
                x,
                y,
            ) != 0 {
                rank_order(x, y)
            } else {
                ranks_order(k1, k2)
            },
            (HandRankSpec::Straight(x), HandRankSpec::Straight(y)) => rank_order(x, y),
            (HandRankSpec::Flush(x, k1), HandRankSpec::Flush(y, k2)) => if rank_order(x, y) != 0 {
                rank_order(x, y)
            } else {
                ranks_order(k1, k2)
            },
            (HandRankSpec::FullHouse(x1, x2), HandRankSpec::FullHouse(y1, y2)) => if rank_order(
                x1,
                y1,
            ) != 0 {
                rank_order(x1, y1)
            } else {
                rank_order(x2, y2)
            },
            (HandRankSpec::FourOfAKind(x, k1), HandRankSpec::FourOfAKind(y, k2)) => if rank_order(
                x,
                y,
            ) != 0 {
                rank_order(x, y)
            } else {
                rank_order(k1, k2)
            },
            (HandRankSpec::StraightFlush(x), HandRankSpec::StraightFlush(y)) => rank_order(x, y),
            _ => 0,
        }
    }
}

/// Rank comparison is antisymmetric, and 0 exactly for equal ranks.
pub proof fn lemma_rank_order_antisymmetric(a: Rank, b: Rank)
    ensures
        rank_order(a, b) == -rank_order(b, a),
        rank_order(a, b) == 0 <==> a == b,
{
}

/// Lexicographic comparison of rank sequences is antisymmetric.
pub proof fn lemma_ranks_order_antisymmetric(a: Seq<Rank>, b: Seq<Rank>)
    ensures
        ranks_order(a, b) == -ranks_order(b, a),
    decreases a.len(),
{
    if a.len() > 0 && b.len() > 0 && rank_order(a[0], b[0]) == 0 {
        lemma_ranks_order_antisymmetric(a.drop_first(), b.drop_first());
    }
}

/// Lexicographic comparison of rank sequences is 0 exactly for equal sequences.
pub proof fn lemma_ranks_order_zero(a: Seq<Rank>, b: Seq<Rank>)
    ensures
        ranks_order(a, b) == 0 <==> a == b,
    decreases a.len(),
{
    if a.len() == 0 && b.len() == 0 {
        assert(a =~= b);
    }
    if a.len() > 0 && b.len() > 0 {
        lemma_ranks_order_zero(a.drop_first(), b.drop_first());
        if rank_order(a[0], b[0]) == 0 && a.drop_first() == b.drop_first() {
            assert forall|i: int| 0 <= i < a.len() implies a[i] == b[i] by {
                if i > 0 {
                    assert(a[i] == a.drop_first()[i - 1]);
                    assert(b[i] == b.drop_first()[i - 1]);
                }
            }
            assert(a =~= b);
        }
        if a == b {
            assert(a.drop_first() == b.drop_first());
        }
    }
}

/// Lexicographic comparison of rank sequences is transitive.
pub proof fn lemma_ranks_order_transitive(a: Seq<Rank>, b: Seq<Rank>, c: Seq<Rank>)
    requires
        ranks_order(a, b) <= 0,
        ranks_order(b, c) <= 0,
    ensures
        ranks_order(a, c) <= 0,
    decreases a.len(),
{
    if a.len() > 0 && b.len() > 0 && c.len() > 0 && rank_order(a[0], b[0]) == 0 && rank_order(b[0], c[0]) == 0 {
        lemma_ranks_order_transitive(a.drop_first(), b.drop_first(), c.drop_first());
    }
}

/// Comparing classifications is antisymmetric: swapping the two negates the result.
pub proof fn lemma_hand_rank_order_antisymmetric(a: HandRankSpec, b: HandRankSpec)
    ensures
        hand_rank_order(a, b) == -hand_rank_order(b, a),
{
    match (a, b) {
        (HandRankSpec::HighCard(_, k1), HandRankSpec::HighCard(_, k2)) => lemma_ranks_order_antisymmetric(k1, k2),
        (HandRankSpec::OnePair(_, k1), HandRankSpec::OnePair(_, k2)) => lemma_ranks_order_antisymmetric(k1, k2),
        (HandRankSpec::ThreeOfAKind(_, k1), HandRankSpec::ThreeOfAKind(_, k2)) => lemma_ranks_order_antisymmetric(k1, k2),
        (HandRankSpec::Flush(_, k1), HandRankSpec::Flush(_, k2)) => lemma_ranks_order_antisymmetric(k1, k2),
        _ => {},
    }
}

/// Comparing classifications gives 0 exactly for equal classifications.
pub proof fn lemma_hand_rank_order_zero(a: HandRankSpec, b: HandRankSpec)
    ensures
        hand_rank_order(a, b) == 0 <==> a == b,
{
    match (a, b) {
        (HandRankSpec::HighCard(_, k1), HandRankSpec::HighCard(_, k2)) => lemma_ranks_order_zero(k1, k2),
        (HandRankSpec::OnePair(_, k1), HandRankSpec::OnePair(_, k2)) => lemma_ranks_order_zero(k1, k2),
        (HandRankSpec::ThreeOfAKind(_, k1), HandRankSpec::ThreeOfAKind(_, k2)) => lemma_ranks_order_zero(k1, k2),
        (HandRankSpec::Flush(_, k1), HandRankSpec::Flush(_, k2)) => lemma_ranks_order_zero(k1, k2),
        _ => {},
    }
}

/// Comparing classifications is transitive.
pub proof fn lemma_hand_rank_order_transitive(a: HandRankSpec, b: HandRankSpec, c: HandRankSpec)
    requires
        hand_rank_order(a, b) <= 0,
        hand_rank_order(b, c) <= 0,
    ensures
        hand_rank_order(a, c) <= 0,
{
    if category(a) == category(b) && category(b) == category(c) {
        match (a, b, c) {
            (
                HandRankSpec::HighCard(x, k1),
                HandRankSpec::HighCard(y, k2),
                HandRankSpec::HighCard(z, k3),
            ) => {
                if rank_order(x, y) == 0 && rank_order(y, z) == 0 {
                    lemma_ranks_order_transitive(k1, k2, k3);
                }
            },
            (
                HandRankSpec::OnePair(x, k1),
                HandRankSpec::OnePair(y, k2),
                HandRankSpec::OnePair(z, k3),
            ) => {
                if rank_order(x, y) == 0 && rank_order(y, z) == 0 {
                    lemma_ranks_order_transitive(k1, k2, k3);
                }
            },
            (
                HandRankSpec::ThreeOfAKind(x, k1),
                HandRankSpec::ThreeOfAKind(y, k2),
                HandRankSpec::ThreeOfAKind(z, k3),
            ) => {
                if rank_order(x, y) == 0 && rank_order(y, z) == 0 {
                    lemma_ranks_order_transitive(k1, k2, k3);
                }
            },
            (
                HandRankSpec::Flush(x, k1),
                HandRankSpec::Flush(y, k2),
                HandRankSpec::Flush(z, k3),
            ) => {
                if rank_order(x, y) == 0 && rank_order(y, z) == 0 {
                    lemma_ranks_order_transitive(k1, k2, k3);
                }
            },
            _ => {},
        }
    }
}

/// A classification in a higher category beats any classification in a lower one.
pub proof fn lemma_category_dominates(a: HandRankSpec, b: HandRankSpec)
    requires
        category(a) > category(b),
    ensures
        hand_rank_order(a, b) == 1,
{
}

/// The categories rank, from the weakest up: high card, one pair, two pair, three of a
/// kind, straight, flush, full house, four of a kind, straight flush, royal flush; a hand
/// of a higher category beats any hand of a lower one.
pub proof fn lemma_category_precedence(a: HandRankSpec, b: HandRankSpec)
    ensures
        (a is OnePair && b is HighCard) ==> hand_rank_order(a, b) > 0,
        (a is TwoPair && (b is OnePair || b is HighCard)) ==> hand_rank_order(a, b) > 0,
        (a is ThreeOfAKind && (b is TwoPair || b is OnePair || b is HighCard)) ==> hand_rank_order(a, b) > 0,
        (a is Straight && (b is ThreeOfAKind || b is TwoPair || b is OnePair || b is HighCard)) ==> hand_rank_order(a, b) > 0,
        (a is Flush && (b is Straight || b is ThreeOfAKind || b is TwoPair || b is OnePair || b is HighCard))
            ==> hand_rank_order(a, b) > 0,
        (a is FullHouse && (b is Flush || b is Straight || b is ThreeOfAKind || b is TwoPair || b is OnePair
            || b is HighCard)) ==> hand_rank_order(a, b) > 0,
        (a is FourOfAKind && (b is FullHouse || b is Flush || b is Straight || b is ThreeOfAKind || b is TwoPair
            || b is OnePair || b is HighCard)) ==> hand_rank_order(a, b) > 0,
        (a is StraightFlush && !(b is StraightFlush || b is RoyalFlush)) ==> hand_rank_order(a, b) > 0,
        (a is RoyalFlush && !(b is RoyalFlush)) ==> hand_rank_order(a, b) > 0,
{
}

/// Within a category, hands are compared by the ranks the classification names, in the
/// order it names them: the first rank that differs decides, the higher rank winning. For
/// two pair that is the higher pair, then the lower pair, then the kicker; for a full house
/// the three of a kind, then the pair; for four of a kind the four, then the kicker; for a
/// straight or straight flush its top card; for a high card, one pair, three of a kind or a
/// flush the first rank, then the kickers (see `lemma_kickers_order`).
pub proof fn lemma_order_within_category(a: HandRankSpec, b: HandRankSpec)
    ensures
        (a, b) matches (HandRankSpec::FullHouse(x1, x2), HandRankSpec::FullHouse(y1, y2)) ==> {
            &&& x1.value() > y1.value() ==> hand_rank_order(a, b) > 0
            &&& (x1 == y1 && x2.value() > y2.value()) ==> hand_rank_order(a, b) > 0
            &&& (x1 == y1 && x2 == y2) ==> hand_rank_order(a, b) == 0
        },
        (a, b) matches (HandRankSpec::TwoPair(x1, x2, x3), HandRankSpec::TwoPair(y1, y2, y3)) ==> {
            &&& x1.value() > y1.value() ==> hand_rank_order(a, b) > 0
            &&& (x1 == y1 && x2.value() > y2.value()) ==> hand_rank_order(a, b) > 0
            &&& (x1 == y1 && x2 == y2 && x3.value() > y3.value()) ==> hand_rank_order(a, b) > 0
            &&& (x1 == y1 && x2 == y2 && x3 == y3) ==> hand_rank_order(a, b) == 0
        },
        (a, b) matches (HandRankSpec::FourOfAKind(x1, x2), HandRankSpec::FourOfAKind(y1, y2)) ==> {
            &&& x1.value() > y1.value() ==> hand_rank_order(a, b) > 0
            &&& (x1 == y1 && x2.value() > y2.value()) ==> hand_rank_order(a, b) > 0
        },
        (a, b) matches (HandRankSpec::Straight(x), HandRankSpec::Straight(y)) ==> (x.value() > y.value()
            ==> hand_rank_order(a, b) > 0),
        (a, b) matches (HandRankSpec::StraightFlush(x), HandRankSpec::StraightFlush(y)) ==> (x.value() > y.value()
            ==> hand_rank_order(a, b) > 0),
        (a, b) matches (HandRankSpec::HighCard(x, k1), HandRankSpec::HighCard(y, k2)) ==> {
            &&& x.value() > y.value() ==> hand_rank_order(a, b) > 0
            &&& x == y ==> hand_rank_order(a, b) == ranks_order(k1, k2)
        },
        (a, b) matches (HandRankSpec::OnePair(x, k1), HandRankSpec::OnePair(y, k2)) ==> {
            &&& x.value() > y.value() ==> hand_rank_order(a, b) > 0
            &&& x == y ==> hand_rank_order(a, b) == ranks_order(k1, k2)
        },
        (a, b) matches (HandRankSpec::ThreeOfAKind(x, k1), HandRankSpec::ThreeOfAKind(y, k2)) ==> {
            &&& x.value() > y.value() ==> hand_rank_order(a, b) > 0
            &&& x == y ==> hand_rank_order(a, b) == ranks_order(k1, k2)
        },
        (a, b) matches (HandRankSpec::Flush(x, k1), HandRankSpec::Flush(y, k2)) ==> {
            &&& x.value() > y.value() ==> hand_rank_order(a, b) > 0
            &&& x == y ==> hand_rank_order(a, b) == ranks_order(k1, k2)
        },
{
    match (a, b) {
        (HandRankSpec::FullHouse(x1, x2), HandRankSpec::FullHouse(y1, y2)) => {
            crate::card::lemma_rank_value(x1, y1);
            crate::card::lemma_rank_value(x2, y2);
        },
        (HandRankSpec::TwoPair(x1, x2, x3), HandRankSpec::TwoPair(y1, y2, y3)) => {
            crate::card::lemma_rank_value(x1, y1);
            crate::card::lemma_rank_value(x2, y2);
            crate::card::lemma_rank_value(x3, y3);
        },
        _ => {},
    }
}

/// Kickers are compared in order, the first that differs deciding, the higher one winning;
/// when one list of kickers runs out first, with the ranks so far equal, the shorter list
/// loses.
pub proof fn lemma_kickers_order(a: Seq<Rank>, b: Seq<Rank>, m: int)
    requires
        0 <= m <= a.len(),
        m <= b.len(),
        forall|i: int| 0 <= i < m ==> a[i] == b[i],
    ensures
        (m < a.len() && m < b.len() && a[m].value() > b[m].value()) ==> ranks_order(a, b) == 1,
        (m == a.len() && m < b.len()) ==> ranks_order(a, b) == -1,
        (m == a.len() && m == b.len()) ==> ranks_order(a, b) == 0,
    decreases m,
{
    if m > 0 {
        assert(a[0] == b[0]);
        assert forall|i: int| 0 <= i < m - 1 implies a.drop_first()[i] == b.drop_first()[i] by {
            assert(a[i + 1] == b[i + 1]);
        }
        lemma_kickers_order(a.drop_first(), b.drop_first(), m - 1);
    }
}

/// The ordering that a comparison result of -1, 0 or 1 stands for.
pub open spec fn ord_of(c: int) -> Ordering {
    if c < 0 {
        Ordering::Less
    } else if c > 0 {
        Ordering::Greater
    } else {
        Ordering::Equal
    }
}

/// Compares two ranks by value: -1, 0 or 1.
pub fn compare_ranks(a: &Rank, b: &Rank) -> (r: i8)
    ensures
        r as int == rank_order(*a, *b),
{
    let x = a.to_u8();
    let y = b.to_u8();
    if x < y {
        -1
    } else if x > y {
        1
    } else {
        0
    }
}

/// Compares two sequences of ranks lexicographically: -1, 0 or 1.
pub fn compare_rank_seqs(a: &Vec<Rank>, b: &Vec<Rank>) -> (r: i8)
    ensures
        r as int == ranks_order(a@, b@),
{
    let la = a.len();
    let lb = b.len();
    let mut i: usize = 0;
    assert(a@.subrange(0, la as int) =~= a@);
    assert(b@.subrange(0, lb as int) =~= b@);
    while i < la && i < lb
        invariant
            i <= la,
            i <= lb,
            la == a@.len(),
            lb == b@.len(),
            ranks_order(a@, b@) == ranks_order(
                a@.subrange(i as int, la as int),
                b@.subrange(i as int, lb as int),
            ),
        decreases la - i,
    {
        let c = compare_ranks(&a[i], &b[i]);
        assert(a@.subrange(i as int, la as int)[0] == a@[i as int]);
        assert(b@.subrange(i as int, lb as int)[0] == b@[i as int]);
        if c != 0 {
            return c;
        }
        assert(a@.subrange(i as int, la as int).drop_first() =~= a@.subrange(i + 1, la as int));
        assert(b@.subrange(i as int, lb as int).drop_first() =~= b@.subrange(i + 1, lb as int));
        i = i + 1;
    }
    if i < la {
        1
    } else if i < lb {
        -1
    } else {
        0
    }
}

/// The ordering that a comparison result stands for.
fn ordering_of(c: i8) -> (o: Ordering)
    ensures
        o == (if c < 0 {
            Ordering::Less
        } else if c > 0 {
            Ordering::Greater
        } else {
            Ordering::Equal
        }),
{
    if c < 0 {
        Ordering::Less
    } else if c > 0 {
        Ordering::Greater
    } else {
        Ordering::Equal
    }
}

impl HandRank {
    /// Compares two classifications: -1 when `self` is weaker, 1 when stronger, 0 when equal.
    pub fn compare(&self, other: &HandRank) -> (r: i8)
        ensures
            r as int == hand_rank_order(self@, other@),
    {
        let a = self.rank_value();
        let b = other.rank_value();
        if a < b {
            return -1;
        }
        if a > b {
            return 1;
        }
        match (self, other) {
            (HandRank::HighCard(x, k1), HandRank::HighCard(y, k2)) => {
                let c = compare_ranks(x, y);
                if c != 0 {
                    c
                } else {
                    compare_rank_seqs(k1, k2)
                }
            },
            (HandRank::OnePair(x, k1), HandRank::OnePair(y, k2)) => {
                let c = compare_ranks(x, y);
                if c != 0 {
                    c
                } else {
                    compare_rank_seqs(k1, k2)
                }
            },
            (HandRank::TwoPair(x1, x2, k1), HandRank::TwoPair(y1, y2, k2)) => {
                let c = compare_ranks(x1, y1);
                if c != 0 {
                    return c;
                }
                let c = compare_ranks(x2, y2);
                if c != 0 {
                    return c;
                }
                compare_ranks(k1, k2)
            },
            (HandRank::ThreeOfAKind(x, k1), HandRank::ThreeOfAKind(y, k2)) => {
                let c = compare_ranks(x, y);
                if c != 0 {
                    c
                } else {
                    compare_rank_seqs(k1, k2)
                }
            },
            (HandRank::Straight(x), HandRank::Straight(y)) => compare_ranks(x, y),
            (HandRank::Flush(x, k1), HandRank::Flush(y, k2)) => {
                let c = compare_ranks(x, y);
                if c != 0 {
                    c
                } else {
                    compare_rank_seqs(k1, k2)
                }
            },
            (HandRank::FullHouse(x1, x2), HandRank::FullHouse(y1, y2)) => {
                let c = compare_ranks(x1, y1);
                if c != 0 {
                    c
                } else {
                    compare_ranks(x2, y2)
                }
            },
            (HandRank::FourOfAKind(x, k1), HandRank::FourOfAKind(y, k2)) => {
                let c = compare_ranks(x, y);
                if c != 0 {
                    c
                } else {
                    compare_ranks(k1, k2)
                }
            },
            (HandRank::StraightFlush(x), HandRank::StraightFlush(y)) => compare_ranks(x, y),
            _ => 0,
        }
    }
}

impl PartialEq for HandRank {
    fn eq(&self, other: &Self) -> (r: bool) {
        self.compare(other) == 0
    }
}

impl PartialEqSpecImpl for HandRank {
    open spec fn obeys_eq_spec() -> bool {
        true
    }

    open spec fn eq_spec(&self, other: &HandRank) -> bool {
        hand_rank_order(self@, other@) == 0
    }
}

impl Eq for HandRank {}

impl PartialOrd for HandRank {
    fn partial_cmp(&self, other: &Self) -> (r: Option<Ordering>) {
        Some(ordering_of(self.compare(other)))
    }
}

impl PartialOrdSpecImpl for HandRank {
    open spec fn obeys_partial_cmp_spec() -> bool {
        true
    }

    open spec fn partial_cmp_spec(&self, other: &HandRank) -> Option<Ordering> {
        Some(ord_of(hand_rank_order(self@, other@)))
    }
}

/// Two sequences of cards hold the same cards (by rank and suit) in the same order.
pub open spec fn same_cards(a: Seq<Card>, b: Seq<Card>) -> bool {
    a.len() == b.len() && forall|i: int| 0 <= i < a.len() ==> same_card(#[trigger] a[i]@, b[i]@)
}

impl PartialEq for Hand {
    fn eq(&self, other: &Self) -> (r: bool) {
        let a = self.cards();
        let b = other.cards();
        if a.len() != b.len() {
            return false;
        }
        let mut i: usize = 0;
        while i < a.len()
            invariant
                a@ == self@,
                b@ == other@,
                a@.len() == b@.len(),
                i <= a@.len(),
                forall|j: int| 0 <= j < i ==> same_card(#[trigger] a@[j]@, b@[j]@),
            decreases a@.len() - i,
        {
            if !a[i].same_as(&b[i]) {
                assert(!same_card(a@[i as int]@, b@[i as int]@));
                return false;
            }
            i = i + 1;
        }
        true
    }
}

impl PartialEqSpecImpl for Hand {
    open spec fn obeys_eq_spec() -> bool {
        true
    }

    open spec fn eq_spec(&self, other: &Hand) -> bool {
        same_cards(self@, other@)
    }
}

impl PartialOrd for Hand {
    fn partial_cmp(&self, other: &Self) -> (r: Option<Ordering>) {
        let a = self.cards().as_slice();
        let b = other.cards().as_slice();
        if Hand::is_rankable(a) && Hand::is_rankable(b) {
            let x = Hand::rank_hand(a);
            let y = Hand::rank_hand(b);
            Some(ordering_of(x.compare(&y)))
        } else {
            None
        }
    }
}

impl PartialOrdSpecImpl for Hand {
    open spec fn obeys_partial_cmp_spec() -> bool {
        true
    }

    open spec fn partial_cmp_spec(&self, other: &Hand) -> Option<Ordering> {
        if rank_hand_defined(self@) && rank_hand_defined(other@) {
            Some(ord_of(hand_rank_order(spec_rank_hand(self@), spec_rank_hand(other@))))
        } else {
            None
        }
    }
}

} // verus!
