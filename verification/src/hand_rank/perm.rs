use vstd::prelude::*;

use crate::card::{Card, Suit};
use super::{
    rank_count, suit_rank_count, suit_count, desc_ranks, with_count, straight_top,
    suit_straight_top, suit_desc, flush_suit, run_from, suit_run_from, spec_rank_hand, rank_hand_defined, has_straight,
    straight_flush_in,
};

verus! {

broadcast use vstd::seq_lib::group_to_multiset_ensures;

/// The two hands hold the same number of cards of every rank, of every suit and rank,
/// and of every suit, and the same number of cards in all.
pub open spec fn same_counts(s1: Seq<Card>, s2: Seq<Card>) -> bool {
    &&& s1.len() == s2.len()
    &&& forall|v: int| #[trigger] rank_count(s1, v) == rank_count(s2, v)
    &&& forall|su: Suit, v: int| #[trigger] suit_rank_count(s1, su, v) == suit_rank_count(s2, su, v)
    &&& forall|su: Suit| #[trigger] suit_count(s1, su) == suit_count(s2, su)
}

/// Removing the card at position `j` removes it from every count.
proof fn lemma_count_remove(s: Seq<Card>, j: int)
    requires
        0 <= j < s.len(),
    ensures
        forall|v: int|
            #[trigger] rank_count(s, v) == rank_count(s.remove(j), v) + (if s[j]@.rank.value() == v {
                1nat
            } else {
                0nat
            }),
        forall|su: Suit, v: int|
            #[trigger] suit_rank_count(s, su, v) == suit_rank_count(s.remove(j), su, v) + (if s[j]@.rank.value()
                == v && s[j]@.suit == su {
                1nat
            } else {
                0nat
            }),
        forall|su: Suit|
            #[trigger] suit_count(s, su) == suit_count(s.remove(j), su) + (if s[j]@.suit == su {
                1nat
            } else {
                0nat
            }),
    decreases s.len(),
{
    if j == s.len() - 1 {
        assert(s.remove(j) =~= s.drop_last());
    } else {
        lemma_count_remove(s.drop_last(), j);
        assert(s.remove(j).drop_last() =~= s.drop_last().remove(j));
        assert(s.remove(j).last() == s.last());
        assert(s.drop_last()[j] == s[j]);
        let t = s.remove(j);
        assert forall|v: int|
            #[trigger] rank_count(s, v) == rank_count(t, v) + (if s[j]@.rank.value() == v {
                1nat
            } else {
                0nat
            }) by {
            assert(rank_count(s.drop_last(), v) == rank_count(s.drop_last().remove(j), v) + (
            if s[j]@.rank.value() == v {
                1nat
            } else {
                0nat
            }));
        }
        assert forall|su: Suit, v: int|
            #[trigger] suit_rank_count(s, su, v) == suit_rank_count(t, su, v) + (if s[j]@.rank.value()
                == v && s[j]@.suit == su {
                1nat
            } else {
                0nat
            }) by {
            assert(suit_rank_count(s.drop_last(), su, v) == suit_rank_count(
                s.drop_last().remove(j),
                su,
                v,
            ) + (if s[j]@.rank.value() == v && s[j]@.suit == su {
                1nat
            } else {
                0nat
            }));
        }
        assert forall|su: Suit|
            #[trigger] suit_count(s, su) == suit_count(t, su) + (if s[j]@.suit == su {
                1nat
            } else {
                0nat
            }) by {
            assert(suit_count(s.drop_last(), su) == suit_count(s.drop_last().remove(j), su) + (
            if s[j]@.suit == su {
                1nat
            } else {
                0nat
            }));
        }
    }
}

/// Hands holding the same cards, in whatever order, have the same counts.
pub proof fn lemma_same_counts_of_permutation(s1: Seq<Card>, s2: Seq<Card>)
    requires
        s1.to_multiset() == s2.to_multiset(),
    ensures
        same_counts(s1, s2),
    decreases s1.len(),
{
    broadcast use vstd::multiset::group_multiset_axioms;

    if s1.len() == 0 {
        assert(s2.len() == s2.to_multiset().len());
        assert(s2 =~= s1);
    } else {
        let x = s1.last();
        let s1p = s1.drop_last();
        assert(s1p.push(x) =~= s1);
        assert(s1.to_multiset() == s1p.to_multiset().insert(x));
        assert(s2.to_multiset().count(x) > 0);
        assert(s2.contains(x));
        let j = choose|j: int| 0 <= j < s2.len() && s2[j] == x;
        let s2p = s2.remove(j);
        assert(s2p.to_multiset() == s2.to_multiset().remove(x));
        assert(s1p.to_multiset() =~= s1p.to_multiset().insert(x).remove(x));
        lemma_same_counts_of_permutation(s1p, s2p);
        lemma_count_remove(s2, j);
        assert forall|v: int| #[trigger] rank_count(s1, v) == rank_count(s2, v) by {
            assert(rank_count(s1p, v) == rank_count(s2p, v));
        }
        assert forall|su: Suit, v: int| #[trigger] suit_rank_count(s1, su, v) == suit_rank_count(
            s2,
            su,
            v,
        ) by {
            assert(suit_rank_count(s1p, su, v) == suit_rank_count(s2p, su, v));
        }
        assert forall|su: Suit| #[trigger] suit_count(s1, su) == suit_count(s2, su) by {
            assert(suit_count(s1p, su) == suit_count(s2p, su));
        }
    }
}

proof fn lemma_desc_same(s1: Seq<Card>, s2: Seq<Card>, lo: int, skip: int)
    requires
        same_counts(s1, s2),
    ensures
        desc_ranks(s1, lo, skip) == desc_ranks(s2, lo, skip),
    decreases 15 - lo,
{
    if lo <= 14 {
        lemma_desc_same(s1, s2, lo + 1, skip);
        assert(rank_count(s1, lo) == rank_count(s2, lo));
    }
}

proof fn lemma_with_count_same(s1: Seq<Card>, s2: Seq<Card>, lo: int, c: nat)
    requires
        same_counts(s1, s2),
    ensures
        with_count(s1, lo, c) == with_count(s2, lo, c),
    decreases 15 - lo,
{
    if lo <= 14 {
        lemma_with_count_same(s1, s2, lo + 1, c);
        assert(rank_count(s1, lo) == rank_count(s2, lo));
    }
}

proof fn lemma_straight_top_same(s1: Seq<Card>, s2: Seq<Card>, v: int)
    requires
        same_counts(s1, s2),
    ensures
        straight_top(s1, v) == straight_top(s2, v),
        forall|su: Suit| #[trigger] suit_straight_top(s1, su, v) == suit_straight_top(s2, su, v),
    decreases v,
{
    if v >= 6 {
        lemma_straight_top_same(s1, s2, v - 1);
    }


    assert(rank_count(s1, v - 4) == rank_count(s2, v - 4));
    assert(rank_count(s1, v - 3) == rank_count(s2, v - 3));
    assert(rank_count(s1, v - 2) == rank_count(s2, v - 2));
    assert(rank_count(s1, v - 1) == rank_count(s2, v - 1));
    assert(rank_count(s1, v) == rank_count(s2, v));
    assert(rank_count(s1, 2) == rank_count(s2, 2));
    assert(rank_count(s1, 3) == rank_count(s2, 3));
    assert(rank_count(s1, 4) == rank_count(s2, 4));
    assert(rank_count(s1, 5) == rank_count(s2, 5));
    assert(rank_count(s1, 14) == rank_count(s2, 14));
    assert forall|su: Suit| #[trigger] suit_straight_top(s1, su, v) == suit_straight_top(s2, su, v) by {
        assert(suit_rank_count(s1, su, v - 4) == suit_rank_count(s2, su, v - 4));
        assert(suit_rank_count(s1, su, v - 3) == suit_rank_count(s2, su, v - 3));
        assert(suit_rank_count(s1, su, v - 2) == suit_rank_count(s2, su, v - 2));
        assert(suit_rank_count(s1, su, v - 1) == suit_rank_count(s2, su, v - 1));
        assert(suit_rank_count(s1, su, v) == suit_rank_count(s2, su, v));
        assert(suit_rank_count(s1, su, 2) == suit_rank_count(s2, su, 2));
        assert(suit_rank_count(s1, su, 3) == suit_rank_count(s2, su, 3));
        assert(suit_rank_count(s1, su, 4) == suit_rank_count(s2, su, 4));
        assert(suit_rank_count(s1, su, 5) == suit_rank_count(s2, su, 5));
        assert(suit_rank_count(s1, su, 14) == suit_rank_count(s2, su, 14));
        if v >= 6 {
            assert(suit_straight_top(s1, su, v - 1) == suit_straight_top(s2, su, v - 1));
            assert(suit_run_from(s1, su, v - 4) == suit_run_from(s2, su, v - 4));
        } else {
            assert(super::suit_ace_low(s1, su) == super::suit_ace_low(s2, su));
        }
    }
}

proof fn lemma_suit_desc_same(s1: Seq<Card>, s2: Seq<Card>, su: Suit, lo: int)
    requires
        same_counts(s1, s2),
    ensures
        suit_desc(s1, su, lo) == suit_desc(s2, su, lo),
    decreases 15 - lo,
{
    if lo <= 14 {
        lemma_suit_desc_same(s1, s2, su, lo + 1);
        assert(suit_rank_count(s1, su, lo) == suit_rank_count(s2, su, lo));
    }
}

/// The classification of a hand depends only on which cards it holds, not on their order:
/// hands holding the same cards are classified alike, and `rank_hand` accepts both or neither.
pub proof fn lemma_rank_hand_permutation(s1: Seq<Card>, s2: Seq<Card>)
    requires
        s1.to_multiset() == s2.to_multiset(),
    ensures
        rank_hand_defined(s1) == rank_hand_defined(s2),
        spec_rank_hand(s1) == spec_rank_hand(s2),
{
    lemma_same_counts_of_permutation(s1, s2);
    lemma_rank_hand_same_counts(s1, s2);
}

/// Hands with the same counts are classified alike.
pub proof fn lemma_rank_hand_same_counts(s1: Seq<Card>, s2: Seq<Card>)
    requires
        same_counts(s1, s2),
    ensures
        rank_hand_defined(s1) == rank_hand_defined(s2),
        spec_rank_hand(s1) == spec_rank_hand(s2),
{
    lemma_desc_same(s1, s2, 2, 0);
    lemma_straight_top_same(s1, s2, 14);
    assert(flush_suit(s1) == flush_suit(s2)) by {
        assert(suit_count(s1, Suit::Clubs) == suit_count(s2, Suit::Clubs));
        assert(suit_count(s1, Suit::Spades) == suit_count(s2, Suit::Spades));
        assert(suit_count(s1, Suit::Hearts) == suit_count(s2, Suit::Hearts));
    }
    lemma_suit_desc_same(s1, s2, flush_suit(s1), 2);
    lemma_with_count_same(s1, s2, 2, 4);
    lemma_with_count_same(s1, s2, 2, 3);
    lemma_with_count_same(s1, s2, 2, 2);
    lemma_with_count_same(s1, s2, 2, 1);
    let fours = with_count(s1, 2, 4);
    let threes = with_count(s1, 2, 3);
    if fours.len() > 0 {
        lemma_desc_same(s1, s2, 2, fours[0].value());
        assert(rank_count(s1, fours[0].value()) == rank_count(s2, fours[0].value()));
    }
    if threes.len() > 0 {
        lemma_desc_same(s1, s2, 2, threes[0].value());
    }
    assert forall|r: int| #[trigger] run_from(s1, r) == run_from(s2, r) by {
        assert(rank_count(s1, r) == rank_count(s2, r));
        assert(rank_count(s1, r + 1) == rank_count(s2, r + 1));
        assert(rank_count(s1, r + 2) == rank_count(s2, r + 2));
        assert(rank_count(s1, r + 3) == rank_count(s2, r + 3));
        assert(rank_count(s1, r + 4) == rank_count(s2, r + 4));
    }
    assert(has_straight(s1) == has_straight(s2)) by {
        assert(rank_count(s1, 14) == rank_count(s2, 14));
        assert(rank_count(s1, 2) == rank_count(s2, 2));
        assert(rank_count(s1, 3) == rank_count(s2, 3));
        assert(rank_count(s1, 4) == rank_count(s2, 4));
        assert(rank_count(s1, 5) == rank_count(s2, 5));
        if exists|r: int| 2 <= r <= 10 && #[trigger] run_from(s1, r) {
            let r = choose|r: int| 2 <= r <= 10 && #[trigger] run_from(s1, r);
            assert(run_from(s2, r));
        }
        if exists|r: int| 2 <= r <= 10 && #[trigger] run_from(s2, r) {
            let r = choose|r: int| 2 <= r <= 10 && #[trigger] run_from(s2, r);
            assert(run_from(s1, r));
        }
    }
    assert forall|su: Suit| #[trigger] straight_flush_in(s1, su) == straight_flush_in(s2, su) by {
        assert forall|r: int| #[trigger] suit_run_from(s1, su, r) == suit_run_from(s2, su, r) by {
            assert(suit_rank_count(s1, su, r) == suit_rank_count(s2, su, r));
            assert(suit_rank_count(s1, su, r + 1) == suit_rank_count(s2, su, r + 1));
            assert(suit_rank_count(s1, su, r + 2) == suit_rank_count(s2, su, r + 2));
            assert(suit_rank_count(s1, su, r + 3) == suit_rank_count(s2, su, r + 3));
            assert(suit_rank_count(s1, su, r + 4) == suit_rank_count(s2, su, r + 4));
        }
        assert(suit_rank_count(s1, su, 14) == suit_rank_count(s2, su, 14));
        assert(suit_rank_count(s1, su, 2) == suit_rank_count(s2, su, 2));
        assert(suit_rank_count(s1, su, 3) == suit_rank_count(s2, su, 3));
        assert(suit_rank_count(s1, su, 4) == suit_rank_count(s2, su, 4));
        assert(suit_rank_count(s1, su, 5) == suit_rank_count(s2, su, 5));
        if exists|r: int| 2 <= r <= 10 && #[trigger] suit_run_from(s1, su, r) {
            let r = choose|r: int| 2 <= r <= 10 && #[trigger] suit_run_from(s1, su, r);
            assert(suit_run_from(s2, su, r));
        }
        if exists|r: int| 2 <= r <= 10 && #[trigger] suit_run_from(s2, su, r) {
            let r = choose|r: int| 2 <= r <= 10 && #[trigger] suit_run_from(s2, su, r);
            assert(suit_run_from(s1, su, r));
        }
    }
    assert(straight_flush_in(s1, Suit::Clubs) == straight_flush_in(s2, Suit::Clubs));
    assert(straight_flush_in(s1, Suit::Spades) == straight_flush_in(s2, Suit::Spades));
    assert(straight_flush_in(s1, Suit::Hearts) == straight_flush_in(s2, Suit::Hearts));
    assert(straight_flush_in(s1, Suit::Diamonds) == straight_flush_in(s2, Suit::Diamonds));
    assert(suit_count(s1, Suit::Clubs) == suit_count(s2, Suit::Clubs));
    assert(suit_count(s1, Suit::Spades) == suit_count(s2, Suit::Spades));
    assert(suit_count(s1, Suit::Hearts) == suit_count(s2, Suit::Hearts));
    assert(suit_count(s1, Suit::Diamonds) == suit_count(s2, Suit::Diamonds));
}

} // verus!
