use vstd::prelude::*;

use crate::card::{Card, Rank, Suit, rank_of_value};

mod order;
mod perm;

pub use perm::{same_counts, lemma_same_counts_of_permutation, lemma_rank_hand_permutation, lemma_rank_hand_same_counts};

pub use order::{
    ord_of, compare_ranks, compare_rank_seqs, same_cards, rank_order, ranks_order, category, hand_rank_order, lemma_rank_order_antisymmetric,
    lemma_ranks_order_antisymmetric, lemma_ranks_order_transitive, lemma_ranks_order_zero,
    lemma_hand_rank_order_antisymmetric, lemma_hand_rank_order_transitive, lemma_hand_rank_order_zero,
    lemma_category_dominates, lemma_category_precedence, lemma_order_within_category, lemma_kickers_order,
};

verus! {

// ---------------------------------------------------------------------------
// Counting cards
// ---------------------------------------------------------------------------

/// Number of cards in `s` whose rank has value `v`.
pub open spec fn rank_count(s: Seq<Card>, v: int) -> nat
    decreases s.len(),
{
    if s.len() == 0 {
        0
    } else {
        rank_count(s.drop_last(), v) + (if s.last()@.rank.value() == v { 1nat } else { 0nat })
    }
}

/// Number of cards in `s` of suit `su` whose rank has value `v`.
pub open spec fn suit_rank_count(s: Seq<Card>, su: Suit, v: int) -> nat
    decreases s.len(),
{
    if s.len() == 0 {
        0
    } else {
        suit_rank_count(s.drop_last(), su, v) + (if s.last()@.rank.value() == v && s.last()@.suit
            == su {
            1nat
        } else {
            0nat
        })
    }
}

/// Number of cards in `s` of suit `su`.
pub open spec fn suit_count(s: Seq<Card>, su: Suit) -> nat
    decreases s.len(),
{
    if s.len() == 0 {
        0
    } else {
        suit_count(s.drop_last(), su) + (if s.last()@.suit == su { 1nat } else { 0nat })
    }
}

/// Some card of `s` has rank value `v`.
pub open spec fn present(s: Seq<Card>, v: int) -> bool {
    rank_count(s, v) > 0
}

// ---------------------------------------------------------------------------
// Flushes and straights
// ---------------------------------------------------------------------------

/// At least five cards share a suit.
pub open spec fn has_flush(s: Seq<Card>) -> bool {
    ||| suit_count(s, Suit::Clubs) >= 5
    ||| suit_count(s, Suit::Spades) >= 5
    ||| suit_count(s, Suit::Hearts) >= 5
    ||| suit_count(s, Suit::Diamonds) >= 5
}

/// The five rank values `r` to `r + 4` all occur in `s`.
pub open spec fn run_from(s: Seq<Card>, r: int) -> bool {
    &&& present(s, r)
    &&& present(s, r + 1)
    &&& present(s, r + 2)
    &&& present(s, r + 3)
    &&& present(s, r + 4)
}

/// Ace, Two, Three, Four and Five all occur in `s`.
pub open spec fn ace_low(s: Seq<Card>) -> bool {
    &&& present(s, 14)
    &&& present(s, 2)
    &&& present(s, 3)
    &&& present(s, 4)
    &&& present(s, 5)
}

/// Five consecutive ranks occur among the cards, an Ace counting low as well as high.
pub open spec fn has_straight(s: Seq<Card>) -> bool {
    ace_low(s) || exists|r: int| 2 <= r <= 10 && #[trigger] run_from(s, r)
}

/// In suit `su`, Ace, Two, Three, Four and Five all occur.
pub open spec fn suit_ace_low(s: Seq<Card>, su: Suit) -> bool {
    &&& suit_rank_count(s, su, 14) > 0
    &&& suit_rank_count(s, su, 2) > 0
    &&& suit_rank_count(s, su, 3) > 0
    &&& suit_rank_count(s, su, 4) > 0
    &&& suit_rank_count(s, su, 5) > 0
}

/// In suit `su`, the five rank values `r` to `r + 4` all occur.
pub open spec fn suit_run_from(s: Seq<Card>, su: Suit, r: int) -> bool {
    &&& suit_rank_count(s, su, r) > 0
    &&& suit_rank_count(s, su, r + 1) > 0
    &&& suit_rank_count(s, su, r + 2) > 0
    &&& suit_rank_count(s, su, r + 3) > 0
    &&& suit_rank_count(s, su, r + 4) > 0
}

/// The cards of suit `su` hold a straight.
pub open spec fn straight_flush_in(s: Seq<Card>, su: Suit) -> bool {
    suit_ace_low(s, su) || exists|r: int| 2 <= r <= 10 && #[trigger] suit_run_from(s, su, r)
}

/// At least five cards, and the cards of one suit hold a straight.
pub open spec fn has_straight_flush(s: Seq<Card>) -> bool {
    &&& s.len() >= 5
    &&& {
        ||| straight_flush_in(s, Suit::Clubs)
        ||| straight_flush_in(s, Suit::Spades)
        ||| straight_flush_in(s, Suit::Hearts)
        ||| straight_flush_in(s, Suit::Diamonds)
    }
}

// ---------------------------------------------------------------------------
// Ranks in order
// ---------------------------------------------------------------------------

/// `k` copies of the rank with value `v`.
pub open spec fn copies(v: int, k: nat) -> Seq<Rank> {
    Seq::new(k, |i: int| rank_of_value(v))
}

/// The ranks of the cards with values from 14 down to `lo`, highest first, each as often
/// as it occurs, leaving out the value `skip`.
pub open spec fn desc_ranks(s: Seq<Card>, lo: int, skip: int) -> Seq<Rank>
    decreases 15 - lo,
{
    if lo > 14 {
        Seq::empty()
    } else if lo == skip {
        desc_ranks(s, lo + 1, skip)
    } else {
        desc_ranks(s, lo + 1, skip) + copies(lo, rank_count(s, lo))
    }
}

/// The ranks of the cards of suit `su` with values from 14 down to `lo`, highest first, each
/// as often as it occurs.
pub open spec fn suit_desc(s: Seq<Card>, su: Suit, lo: int) -> Seq<Rank>
    decreases 15 - lo,
{
    if lo > 14 {
        Seq::empty()
    } else {
        suit_desc(s, su, lo + 1) + copies(lo, suit_rank_count(s, su, lo))
    }
}

/// The suit of a flush: the first of Clubs, Spades, Hearts and Diamonds of which at least
/// five cards occur.
pub open spec fn flush_suit(s: Seq<Card>) -> Suit {
    if suit_count(s, Suit::Clubs) >= 5 {
        Suit::Clubs
    } else if suit_count(s, Suit::Spades) >= 5 {
        Suit::Spades
    } else if suit_count(s, Suit::Hearts) >= 5 {
        Suit::Hearts
    } else {
        Suit::Diamonds
    }
}

/// All ranks of the cards, highest first, each as often as it occurs.
pub open spec fn sorted_ranks(s: Seq<Card>) -> Seq<Rank> {
    desc_ranks(s, 2, 0)
}

/// The ranks with values from 14 down to `lo` that occur exactly `c` times, highest first.
pub open spec fn with_count(s: Seq<Card>, lo: int, c: nat) -> Seq<Rank>
    decreases 15 - lo,
{
    if lo > 14 {
        Seq::empty()
    } else if rank_count(s, lo) == c {
        with_count(s, lo + 1, c).push(rank_of_value(lo))
    } else {
        with_count(s, lo + 1, c)
    }
}

/// The top card of the highest straight whose top card is at most `v`: the highest value
/// `w`, from `v` down to 6, such that `w - 4` to `w` all occur; 5 when none does but Ace to
/// Five occur (the Ace counting low); 0 when there is no such straight.
pub open spec fn straight_top(s: Seq<Card>, v: int) -> int
    decreases v,
{
    if v < 6 {
        if ace_low(s) { 5 } else { 0 }
    } else if run_from(s, v - 4) {
        v
    } else {
        straight_top(s, v - 1)
    }
}

/// The top card of the highest straight in suit `su` whose top card is at most `v` (0 when
/// there is none), as `straight_top` for the cards of that suit.
pub open spec fn suit_straight_top(s: Seq<Card>, su: Suit, v: int) -> int
    decreases v,
{
    if v < 6 {
        if suit_ace_low(s, su) { 5 } else { 0 }
    } else if suit_run_from(s, su, v - 4) {
        v
    } else {
        suit_straight_top(s, su, v - 1)
    }
}

/// The larger of two integers.
pub open spec fn larger(a: int, b: int) -> int {
    if a >= b { a } else { b }
}

/// The top card of the highest straight flush among the cards, over all suits (0 when
/// there is none).
pub open spec fn straight_flush_top(s: Seq<Card>) -> int {
    larger(
        larger(suit_straight_top(s, Suit::Clubs, 14), suit_straight_top(s, Suit::Spades, 14)),
        larger(suit_straight_top(s, Suit::Hearts, 14), suit_straight_top(s, Suit::Diamonds, 14)),
    )
}

/// In the list of rank frequencies, `a` comes before `b`: it is more frequent or, as
/// frequent, of higher rank.
pub open spec fn freq_before(a: (Rank, u8), b: (Rank, u8)) -> bool {
    a.1 > b.1 || (a.1 == b.1 && a.0.value() > b.0.value())
}

/// The first `n` ranks of `s` (all of them when there are fewer).
pub open spec fn take(s: Seq<Rank>, n: int) -> Seq<Rank> {
    if s.len() <= n {
        s
    } else {
        s.subrange(0, n)
    }
}

// ---------------------------------------------------------------------------
// Classification
// ---------------------------------------------------------------------------

/// A hand classification as a mathematical value.
pub enum HandRankSpec {
    HighCard(Rank, Seq<Rank>),
    OnePair(Rank, Seq<Rank>),
    TwoPair(Rank, Rank, Rank),
    ThreeOfAKind(Rank, Seq<Rank>),
    Straight(Rank),
    Flush(Rank, Seq<Rank>),
    FullHouse(Rank, Rank),
    FourOfAKind(Rank, Rank),
    StraightFlush(Rank),
    RoyalFlush,
}

/// The second rank of a full house among the threes and pairs of a hand: the higher of the
/// second three of a kind, if any, and the highest pair, if any.
pub open spec fn full_house_pair(threes: Seq<Rank>, pairs: Seq<Rank>) -> Rank {
    if threes.len() >= 2 && (pairs.len() == 0 || threes[1].value() > pairs[0].value()) {
        threes[1]
    } else {
        pairs[0]
    }
}

/// The kicker of two pair among the pairs and single cards of a hand: the higher of the
/// third pair, if any, and the highest single card, if any.
pub open spec fn two_pair_kicker(pairs: Seq<Rank>, singles: Seq<Rank>) -> Rank {
    if pairs.len() >= 3 && (singles.len() == 0 || pairs[2].value() > singles[0].value()) {
        pairs[2]
    } else {
        singles[0]
    }
}

/// The inputs that `rank_hand` classifies: a non-empty hand which, unless it holds a
/// straight flush, holds another rank beside a four of a kind, and a fifth card beside two
/// pairs.
pub open spec fn rank_hand_defined(s: Seq<Card>) -> bool {
    let fours = with_count(s, 2, 4);
    let threes = with_count(s, 2, 3);
    let pairs = with_count(s, 2, 2);
    let singles = with_count(s, 2, 1);
    &&& s.len() > 0
    &&& !has_straight_flush(s) ==> {
        &&& fours.len() >= 1 ==> rank_count(s, fours[0].value()) < s.len()
        &&& (fours.len() == 0 && threes.len() == 0 && pairs.len() >= 2) ==> (singles.len() >= 1
            || pairs.len() >= 3)
    }
}

/// The classification of a hand of cards, the categories tried from the highest down:
/// straight flush (a royal flush when its top card is an Ace), four of a kind, full house,
/// flush, straight, three of a kind, two pair, one pair, high card. A straight or straight flush is named by its own top
/// card, the Ace counting low in Ace to Five; a flush by the ranks of its suit.
pub open spec fn spec_rank_hand(s: Seq<Card>) -> HandRankSpec {
    let sorted = sorted_ranks(s);
    let fours = with_count(s, 2, 4);
    let threes = with_count(s, 2, 3);
    let pairs = with_count(s, 2, 2);
    let singles = with_count(s, 2, 1);
    if has_straight_flush(s) {
        let top = straight_flush_top(s);
        if top == 14 {
            HandRankSpec::RoyalFlush
        } else {
            HandRankSpec::StraightFlush(rank_of_value(top))
        }
    } else if fours.len() >= 1 {
        HandRankSpec::FourOfAKind(fours[0], desc_ranks(s, 2, fours[0].value())[0])
    } else if threes.len() >= 1 && (pairs.len() >= 1 || threes.len() >= 2) {
        HandRankSpec::FullHouse(threes[0], full_house_pair(threes, pairs))
    } else if has_flush(s) {
        let fr = suit_desc(s, flush_suit(s), 2);
        HandRankSpec::Flush(fr[0], take(fr.drop_first(), 4))
    } else if has_straight(s) {
        HandRankSpec::Straight(rank_of_value(straight_top(s, 14)))
    } else if threes.len() >= 1 {
        HandRankSpec::ThreeOfAKind(threes[0], take(desc_ranks(s, 2, threes[0].value()), 2))
    } else if pairs.len() >= 2 {
        HandRankSpec::TwoPair(pairs[0], pairs[1], two_pair_kicker(pairs, singles))
    } else if pairs.len() == 1 {
        HandRankSpec::OnePair(pairs[0], take(singles, 3))
    } else {
        HandRankSpec::HighCard(sorted[0], take(sorted.drop_first(), 4))
    }
}

// ---------------------------------------------------------------------------
// Lemmas on counting
// ---------------------------------------------------------------------------

/// Counting over one more card of a prefix adds that card.
proof fn lemma_count_step(s: Seq<Card>, i: int)
    requires
        0 <= i < s.len(),
    ensures
        forall|v: int|
            #[trigger] rank_count(s.subrange(0, i + 1), v) == rank_count(s.subrange(0, i), v) + (
            if s[i]@.rank.value() == v {
                1nat
            } else {
                0nat
            }),
        forall|su: Suit, v: int|
            #[trigger] suit_rank_count(s.subrange(0, i + 1), su, v) == suit_rank_count(
                s.subrange(0, i),
                su,
                v,
            ) + (if s[i]@.rank.value() == v && s[i]@.suit == su {
                1nat
            } else {
                0nat
            }),
        forall|su: Suit|
            #[trigger] suit_count(s.subrange(0, i + 1), su) == suit_count(s.subrange(0, i), su) + (
            if s[i]@.suit == su {
                1nat
            } else {
                0nat
            }),
{
    assert(s.subrange(0, i + 1).drop_last() =~= s.subrange(0, i));
    assert(s.subrange(0, i + 1).last() == s[i]);
}

/// No rank occurs more often than there are cards.
proof fn lemma_count_bound(s: Seq<Card>, v: int)
    ensures
        rank_count(s, v) <= s.len(),
    decreases s.len(),
{
    if s.len() > 0 {
        lemma_count_bound(s.drop_last(), v);
    }
}

/// The rank of every card of the hand occurs in it.
proof fn lemma_card_present(s: Seq<Card>, i: int)
    requires
        0 <= i < s.len(),
    ensures
        present(s, s[i]@.rank.value()),
    decreases s.len(),
{
    if i < s.len() - 1 {
        lemma_card_present(s.drop_last(), i);
        assert(s.drop_last()[i] == s[i]);
    }
}

/// When fewer than all cards have rank value `x`, some other rank occurs.
proof fn lemma_other_present(s: Seq<Card>, x: int)
    requires
        rank_count(s, x) < s.len(),
    ensures
        exists|v: int| 2 <= v <= 14 && v != x && #[trigger] present(s, v),
    decreases s.len(),
{
    let v = s.last()@.rank.value();
    if v != x {
        lemma_card_present(s, s.len() - 1);
        assert(present(s, v));
    } else {
        lemma_other_present(s.drop_last(), x);
        let w = choose|w: int| 2 <= w <= 14 && w != x && #[trigger] present(s.drop_last(), w);
        assert(present(s, w));
    }
}

/// Ranks listed in order include every rank value that occurs.
proof fn lemma_desc_nonempty(s: Seq<Card>, lo: int, skip: int, v: int)
    requires
        lo <= v <= 14,
        v != skip,
        present(s, v),
    ensures
        desc_ranks(s, lo, skip).len() > 0,
    decreases 15 - lo,
{
    if lo < v {
        lemma_desc_nonempty(s, lo + 1, skip, v);
    }
}

/// The top card of a straight found from `v` down is 0, or between 5 and 14; it is not 0
/// exactly when Ace to Five occur or a straight with a top card of at most `v` does; it is
/// the top card of a straight the cards hold, and no straight with a higher top card (up to
/// `v`) is held.
proof fn lemma_straight_top(s: Seq<Card>, v: int)
    requires
        v <= 14,
    ensures
        straight_top(s, v) == 0 || 5 <= straight_top(s, v) <= 14,
        straight_top(s, v) > 0 <==> (ace_low(s) || exists|r: int| 2 <= r <= v - 4 && #[trigger] run_from(s, r)),
        straight_top(s, v) >= 6 ==> run_from(s, straight_top(s, v) - 4),
        straight_top(s, v) == 5 ==> ace_low(s),
        forall|r: int| 2 <= r && straight_top(s, v) - 4 < r <= v - 4 ==> !#[trigger] run_from(s, r),
    decreases v,
{
    if v >= 6 {
        lemma_straight_top(s, v - 1);
        if !run_from(s, v - 4) {
            if exists|r: int| 2 <= r <= v - 4 && #[trigger] run_from(s, r) {
                let r = choose|r: int| 2 <= r <= v - 4 && #[trigger] run_from(s, r);
                assert(2 <= r <= v - 5);
            }
        }
    }
}

/// The straight a hand is named by is the highest it holds: its five ranks all occur (Ace,
/// Two, Three, Four and Five for a Five-high straight), and no straight with a higher top
/// card occurs.
pub proof fn lemma_highest_straight(s: Seq<Card>)
    requires
        has_straight(s),
    ensures
        5 <= straight_top(s, 14) <= 14,
        straight_top(s, 14) >= 6 ==> run_from(s, straight_top(s, 14) - 4),
        straight_top(s, 14) == 5 ==> ace_low(s),
        forall|r: int| 2 <= r && straight_top(s, 14) - 4 < r <= 10 ==> !#[trigger] run_from(s, r),
{
    lemma_straight_top(s, 14);
}

/// The same for a straight in one suit.
proof fn lemma_suit_straight_top(s: Seq<Card>, su: Suit, v: int)
    requires
        v <= 14,
    ensures
        suit_straight_top(s, su, v) == 0 || 5 <= suit_straight_top(s, su, v) <= 14,
        suit_straight_top(s, su, v) > 0 <==> (suit_ace_low(s, su) || exists|r: int|
            2 <= r <= v - 4 && #[trigger] suit_run_from(s, su, r)),
        suit_straight_top(s, su, v) >= 6 ==> suit_run_from(s, su, suit_straight_top(s, su, v) - 4),
        suit_straight_top(s, su, v) == 5 ==> suit_ace_low(s, su),
        forall|r: int| 2 <= r && suit_straight_top(s, su, v) - 4 < r <= v - 4 ==> !#[trigger] suit_run_from(s, su, r),
    decreases v,
{
    if v >= 6 {
        lemma_suit_straight_top(s, su, v - 1);
        if !suit_run_from(s, su, v - 4) {
            if exists|r: int| 2 <= r <= v - 4 && #[trigger] suit_run_from(s, su, r) {
                let r = choose|r: int| 2 <= r <= v - 4 && #[trigger] suit_run_from(s, su, r);
                assert(2 <= r <= v - 5);
            }
        }
    }
}

/// The straight flush a hand is named by is the highest it holds: in some suit its five
/// ranks all occur (Ace to Five for a Five-high one), and in no suit does a straight with a
/// higher top card occur.
pub proof fn lemma_highest_straight_flush(s: Seq<Card>)
    requires
        has_straight_flush(s),
    ensures
        5 <= straight_flush_top(s) <= 14,
        exists|su: Suit| #[trigger] suit_straight_top(s, su, 14) == straight_flush_top(s),
        forall|su: Suit, r: int|
            2 <= r && straight_flush_top(s) - 4 < r <= 10 ==> !#[trigger] suit_run_from(s, su, r),
{
    lemma_straight_flush_top(s);
    lemma_suit_straight_top(s, Suit::Clubs, 14);
    lemma_suit_straight_top(s, Suit::Spades, 14);
    lemma_suit_straight_top(s, Suit::Hearts, 14);
    lemma_suit_straight_top(s, Suit::Diamonds, 14);
    let top = straight_flush_top(s);
    if suit_straight_top(s, Suit::Clubs, 14) == top {
        assert(suit_straight_top(s, Suit::Clubs, 14) == top);
    } else if suit_straight_top(s, Suit::Spades, 14) == top {
        assert(suit_straight_top(s, Suit::Spades, 14) == top);
    } else if suit_straight_top(s, Suit::Hearts, 14) == top {
        assert(suit_straight_top(s, Suit::Hearts, 14) == top);
    } else {
        assert(suit_straight_top(s, Suit::Diamonds, 14) == top);
    }
    assert forall|su: Suit, r: int| 2 <= r && top - 4 < r <= 10 implies !#[trigger] suit_run_from(s, su, r) by {
        match su {
            Suit::Clubs => {},
            Suit::Spades => {},
            Suit::Hearts => {},
            Suit::Diamonds => {},
        }
    }
}

/// The ranks listed with count `c` from `lo` up lie between `lo` and 14, occur exactly `c`
/// times, come highest first, and include every such rank.
proof fn lemma_with_count(s: Seq<Card>, lo: int, c: nat)
    requires
        2 <= lo,
    ensures
        forall|i: int| 0 <= i < with_count(s, lo, c).len() ==> lo <= (#[trigger] with_count(s, lo, c)[i]).value() <= 14
            && rank_count(s, with_count(s, lo, c)[i].value()) == c,
        forall|i: int, j: int| 0 <= i < j < with_count(s, lo, c).len() ==> (#[trigger] with_count(s, lo, c)[i]).value()
            > (#[trigger] with_count(s, lo, c)[j]).value(),
        forall|v: int| lo <= v <= 14 && #[trigger] rank_count(s, v) == c ==> with_count(s, lo, c).contains(rank_of_value(v)),
    decreases 15 - lo,
{
    if lo <= 14 {
        lemma_with_count(s, lo + 1, c);
        let w1 = with_count(s, lo + 1, c);
        let w = with_count(s, lo, c);
        crate::card::lemma_value_rank(lo);
        if rank_count(s, lo) == c {
            assert(w == w1.push(rank_of_value(lo)));
            assert forall|v: int| lo <= v <= 14 && #[trigger] rank_count(s, v) == c implies w.contains(rank_of_value(v)) by {
                if v == lo {
                    assert(w[w.len() - 1] == rank_of_value(v));
                } else {
                    let x = choose|x: int| 0 <= x < w1.len() && w1[x] == rank_of_value(v);
                    assert(w[x] == w1[x]);
                }
            }
        }
    }
}

/// The first of the ranks listed in order from `lo` up, leaving out `skip`, is the highest
/// rank value from `lo` up other than `skip` that occurs.
proof fn lemma_desc_first(s: Seq<Card>, lo: int, skip: int)
    requires
        2 <= lo,
    ensures
        desc_ranks(s, lo, skip).len() > 0 ==> {
            let d = desc_ranks(s, lo, skip)[0].value();
            &&& lo <= d <= 14 && d != skip && present(s, d)
            &&& forall|v: int| lo <= v <= 14 && v != skip && #[trigger] present(s, v) ==> v <= d
        },
    decreases 15 - lo,
{
    if lo <= 14 {
        lemma_desc_first(s, lo + 1, skip);
        let d1 = desc_ranks(s, lo + 1, skip);
        crate::card::lemma_value_rank(lo);
        if d1.len() == 0 {
            assert forall|v: int| lo + 1 <= v <= 14 && v != skip implies !#[trigger] present(s, v) by {
                if present(s, v) {
                    lemma_desc_nonempty(s, lo + 1, skip, v);
                }
            }
        }
        if lo != skip {
            let d = desc_ranks(s, lo, skip);
            assert(d == d1 + copies(lo, rank_count(s, lo)));
            if d1.len() > 0 {
                assert(d[0] == d1[0]);
            } else if d.len() > 0 {
                assert(d[0] == rank_of_value(lo));
            }
        }
    }
}

/// Four of a kind names the rank of the four cards and, as kicker, the highest rank among
/// the other cards.
pub proof fn lemma_four_of_a_kind(s: Seq<Card>)
    requires
        rank_hand_defined(s),
    ensures
        spec_rank_hand(s) matches HandRankSpec::FourOfAKind(q, k) ==> {
            &&& rank_count(s, q.value()) == 4
            &&& k != q && present(s, k.value())
            &&& forall|i: int| 0 <= i < s.len() && (#[trigger] s[i])@.rank != q ==> s[i]@.rank.value() <= k.value()
        },
{
    let fours = with_count(s, 2, 4);
    if spec_rank_hand(s) is FourOfAKind {
        lemma_with_count(s, 2, 4);
        assert(!has_straight_flush(s) && fours.len() >= 1);
        let q = fours[0];
        let qv = q.value();
        assert(rank_count(s, qv) < s.len());
        lemma_other_present(s, qv);
        let w = choose|w: int| 2 <= w <= 14 && w != qv && #[trigger] present(s, w);
        lemma_desc_nonempty(s, 2, qv, w);
        lemma_desc_first(s, 2, qv);
        let k = desc_ranks(s, 2, qv)[0];
        assert(spec_rank_hand(s) == HandRankSpec::FourOfAKind(q, k));
        crate::card::lemma_rank_value(k, q);
        assert forall|i: int| 0 <= i < s.len() && (#[trigger] s[i])@.rank != q implies s[i]@.rank.value() <= k.value() by {
            crate::card::lemma_rank_value(s[i]@.rank, q);
            lemma_card_present(s, i);
        }
    }
}

/// A full house names the highest rank that occurs three times and, beside it, the highest
/// other rank that occurs at least twice. This holds of hands in which no rank occurs more
/// than four times, as in any hand dealt from one deck.
pub proof fn lemma_full_house(s: Seq<Card>)
    requires
        rank_hand_defined(s),
        forall|v: int| #[trigger] rank_count(s, v) <= 4,
    ensures
        spec_rank_hand(s) matches HandRankSpec::FullHouse(a, b) ==> {
            &&& rank_count(s, a.value()) == 3 && rank_count(s, b.value()) >= 2 && a != b
            &&& forall|v: int| 2 <= v <= 14 && #[trigger] rank_count(s, v) == 3 ==> v <= a.value()
            &&& forall|v: int| 2 <= v <= 14 && v != a.value() && #[trigger] rank_count(s, v) >= 2 ==> v <= b.value()
        },
{
    let fours = with_count(s, 2, 4);
    let threes = with_count(s, 2, 3);
    let pairs = with_count(s, 2, 2);
    if spec_rank_hand(s) is FullHouse {
        lemma_with_count(s, 2, 4);
        lemma_with_count(s, 2, 3);
        lemma_with_count(s, 2, 2);
        assert(!has_straight_flush(s) && fours.len() == 0 && threes.len() >= 1 && (pairs.len() >= 1 || threes.len() >= 2));
        let a = threes[0];
        let b = full_house_pair(threes, pairs);
        assert(spec_rank_hand(s) == HandRankSpec::FullHouse(a, b));
        if threes.len() >= 2 && (pairs.len() == 0 || threes[1].value() > pairs[0].value()) {
            assert(threes[0].value() > threes[1].value());
        } else {
            assert(b == pairs[0]);
        }
        crate::card::lemma_rank_value(a, b);
        assert forall|v: int| 2 <= v <= 14 && #[trigger] rank_count(s, v) == 3 implies v <= a.value() by {
            assert(threes.contains(rank_of_value(v)));
            let x = choose|x: int| 0 <= x < threes.len() && threes[x] == rank_of_value(v);
            crate::card::lemma_value_rank(v);
            if x > 0 {
                assert(threes[0].value() > threes[x].value());
            }
        }
        assert forall|v: int| 2 <= v <= 14 && v != a.value() && #[trigger] rank_count(s, v) >= 2 implies v <= b.value() by {
            crate::card::lemma_value_rank(v);
            if rank_count(s, v) == 4 {
                assert(fours.contains(rank_of_value(v)));
            } else if rank_count(s, v) == 3 {
                assert(threes.contains(rank_of_value(v)));
                let x = choose|x: int| 0 <= x < threes.len() && threes[x] == rank_of_value(v);
                assert(x != 0);
                if x > 1 {
                    assert(threes[1].value() > threes[x].value());
                }
            } else {
                assert(rank_count(s, v) == 2);
                assert(pairs.contains(rank_of_value(v)));
                let x = choose|x: int| 0 <= x < pairs.len() && pairs[x] == rank_of_value(v);
                if x > 0 {
                    assert(pairs[0].value() > pairs[x].value());
                }
            }
        }
    }
}

/// When no rank but `skip` occurs more than once, and `skip` does not occur exactly once,
/// the ranks listed in order leaving out `skip` are the ranks that occur once.
proof fn lemma_desc_singles(s: Seq<Card>, lo: int, skip: int)
    requires
        2 <= lo,
        lo <= skip <= 14 ==> rank_count(s, skip) != 1,
        forall|v: int| lo <= v <= 14 && v != skip ==> #[trigger] rank_count(s, v) <= 1,
    ensures
        desc_ranks(s, lo, skip) == with_count(s, lo, 1),
    decreases 15 - lo,
{
    if lo <= 14 {
        lemma_desc_singles(s, lo + 1, skip);
        if lo != skip {
            if rank_count(s, lo) == 1 {
                assert(copies(lo, 1) =~= seq![rank_of_value(lo)]);
                assert(desc_ranks(s, lo, skip) =~= with_count(s, lo + 1, 1).push(rank_of_value(lo)));
            } else {
                assert(copies(lo, 0) =~= Seq::<Rank>::empty());
                assert(desc_ranks(s, lo, skip) =~= with_count(s, lo + 1, 1));
            }
        }
    }
}

/// The first `n` ranks that occur once: each occurs once, they come highest first, and
/// every other rank that occurs once is below them all, the list then being full.
proof fn lemma_top_singles(s: Seq<Card>, n: int)
    requires
        n >= 1,
    ensures
        take(with_count(s, 2, 1), n).len() <= n,
        forall|j: int| 0 <= j < take(with_count(s, 2, 1), n).len() ==> rank_count(s, (#[trigger] take(with_count(s, 2, 1), n)[j]).value()) == 1,
        forall|i: int, j: int| 0 <= i < j < take(with_count(s, 2, 1), n).len() ==> (#[trigger] take(with_count(s, 2, 1), n)[i]).value()
            > (#[trigger] take(with_count(s, 2, 1), n)[j]).value(),
        forall|v: int| 2 <= v <= 14 && #[trigger] rank_count(s, v) == 1 && !take(with_count(s, 2, 1), n).contains(rank_of_value(v))
            ==> take(with_count(s, 2, 1), n).len() == n && v < take(with_count(s, 2, 1), n)[n - 1].value(),
{
    let w = with_count(s, 2, 1);
    let t = take(w, n);
    lemma_with_count(s, 2, 1);
    assert forall|j: int| 0 <= j < t.len() implies #[trigger] t[j] == w[j] by {}
    assert forall|v: int| 2 <= v <= 14 && #[trigger] rank_count(s, v) == 1 && !t.contains(rank_of_value(v)) implies t.len() == n
        && v < t[n - 1].value() by {
        assert(w.contains(rank_of_value(v)));
        let x = choose|x: int| 0 <= x < w.len() && w[x] == rank_of_value(v);
        crate::card::lemma_value_rank(v);
        if x < n && x < w.len() {
            assert(t[x] == w[x]);
        }
        assert(x >= n);
        assert(w[n - 1].value() > w[x].value());
    }
}

/// One pair names the rank of the pair and, as kickers, the three highest ranks among the
/// other cards, highest first; the kickers are fewer only when no other card is left. This
/// holds of hands in which no rank occurs more than four times.
pub proof fn lemma_one_pair(s: Seq<Card>)
    requires
        forall|v: int| #[trigger] rank_count(s, v) <= 4,
    ensures
        spec_rank_hand(s) matches HandRankSpec::OnePair(p, ks) ==> {
            &&& rank_count(s, p.value()) == 2
            &&& ks.len() <= 3
            &&& forall|j: int| 0 <= j < ks.len() ==> rank_count(s, (#[trigger] ks[j]).value()) == 1
            &&& forall|i: int, j: int| 0 <= i < j < ks.len() ==> (#[trigger] ks[i]).value() > (#[trigger] ks[j]).value()
            &&& forall|i: int| 0 <= i < s.len() && (#[trigger] s[i])@.rank != p && !ks.contains(s[i]@.rank) ==> ks.len() == 3
                && s[i]@.rank.value() < ks[2].value()
        },
{
    let fours = with_count(s, 2, 4);
    let threes = with_count(s, 2, 3);
    let pairs = with_count(s, 2, 2);
    let singles = with_count(s, 2, 1);
    if spec_rank_hand(s) is OnePair {
        lemma_with_count(s, 2, 4);
        lemma_with_count(s, 2, 3);
        lemma_with_count(s, 2, 2);
        lemma_top_singles(s, 3);
        assert(fours.len() == 0 && threes.len() == 0 && pairs.len() == 1);
        let p = pairs[0];
        let ks = take(singles, 3);
        assert(spec_rank_hand(s) == HandRankSpec::OnePair(p, ks));
        assert forall|i: int| 0 <= i < s.len() && (#[trigger] s[i])@.rank != p && !ks.contains(s[i]@.rank) implies ks.len() == 3
            && s[i]@.rank.value() < ks[2].value() by {
            let r = s[i]@.rank;
            let v = r.value();
            crate::card::lemma_rank_value(r, p);
            lemma_card_present(s, i);
            if rank_count(s, v) == 4 {
                assert(fours.contains(rank_of_value(v)));
            } else if rank_count(s, v) == 3 {
                assert(threes.contains(rank_of_value(v)));
            } else if rank_count(s, v) == 2 {
                assert(pairs.contains(rank_of_value(v)));
                crate::card::lemma_value_rank(v);
            }
            assert(rank_count(s, v) == 1);
        }
    }
}

/// Three of a kind names the rank of the three cards and, as kickers, the two highest ranks
/// among the other cards, highest first; the kickers are fewer only when no other card is
/// left. This holds of hands in which no rank occurs more than four times.
pub proof fn lemma_three_of_a_kind(s: Seq<Card>)
    requires
        forall|v: int| #[trigger] rank_count(s, v) <= 4,
    ensures
        spec_rank_hand(s) matches HandRankSpec::ThreeOfAKind(t, ks) ==> {
            &&& rank_count(s, t.value()) == 3
            &&& ks.len() <= 2
            &&& forall|j: int| 0 <= j < ks.len() ==> rank_count(s, (#[trigger] ks[j]).value()) == 1
            &&& forall|i: int, j: int| 0 <= i < j < ks.len() ==> (#[trigger] ks[i]).value() > (#[trigger] ks[j]).value()
            &&& forall|i: int| 0 <= i < s.len() && (#[trigger] s[i])@.rank != t && !ks.contains(s[i]@.rank) ==> ks.len() == 2
                && s[i]@.rank.value() < ks[1].value()
        },
{
    let fours = with_count(s, 2, 4);
    let threes = with_count(s, 2, 3);
    let pairs = with_count(s, 2, 2);
    let singles = with_count(s, 2, 1);
    if spec_rank_hand(s) is ThreeOfAKind {
        lemma_with_count(s, 2, 4);
        lemma_with_count(s, 2, 3);
        lemma_with_count(s, 2, 2);
        lemma_top_singles(s, 2);
        assert(fours.len() == 0 && threes.len() == 1 && pairs.len() == 0);
        let t = threes[0];
        let tv = t.value();
        assert forall|v: int| 2 <= v <= 14 && v != tv implies #[trigger] rank_count(s, v) <= 1 by {
            crate::card::lemma_value_rank(v);
            if rank_count(s, v) == 4 {
                assert(fours.contains(rank_of_value(v)));
            } else if rank_count(s, v) == 3 {
                assert(threes.contains(rank_of_value(v)));
            } else if rank_count(s, v) == 2 {
                assert(pairs.contains(rank_of_value(v)));
            }
        }
        lemma_desc_singles(s, 2, tv);
        let ks = take(singles, 2);
        assert(spec_rank_hand(s) == HandRankSpec::ThreeOfAKind(t, ks));
        assert forall|i: int| 0 <= i < s.len() && (#[trigger] s[i])@.rank != t && !ks.contains(s[i]@.rank) implies ks.len() == 2
            && s[i]@.rank.value() < ks[1].value() by {
            let r = s[i]@.rank;
            crate::card::lemma_rank_value(r, t);
            lemma_card_present(s, i);
            assert(rank_count(s, r.value()) <= 1);
        }
    }
}

/// High card names the highest rank and, as kickers, the next four highest ranks, highest
/// first; the kickers are fewer only when no other card is left. This holds of hands in which
/// no rank occurs more than four times.
pub proof fn lemma_high_card(s: Seq<Card>)
    requires
        rank_hand_defined(s),
        forall|v: int| #[trigger] rank_count(s, v) <= 4,
    ensures
        spec_rank_hand(s) matches HandRankSpec::HighCard(h, ks) ==> {
            &&& present(s, h.value())
            &&& forall|i: int| 0 <= i < s.len() ==> (#[trigger] s[i])@.rank.value() <= h.value()
            &&& ks.len() <= 4
            &&& forall|j: int| 0 <= j < ks.len() ==> h.value() > (#[trigger] ks[j]).value() && present(s, ks[j].value())
            &&& forall|i: int, j: int| 0 <= i < j < ks.len() ==> (#[trigger] ks[i]).value() > (#[trigger] ks[j]).value()
            &&& forall|i: int| 0 <= i < s.len() && (#[trigger] s[i])@.rank != h && !ks.contains(s[i]@.rank) ==> ks.len() == 4
                && s[i]@.rank.value() < ks[3].value()
        },
{
    let fours = with_count(s, 2, 4);
    let threes = with_count(s, 2, 3);
    let pairs = with_count(s, 2, 2);
    let singles = with_count(s, 2, 1);
    if spec_rank_hand(s) is HighCard {
        lemma_with_count(s, 2, 4);
        lemma_with_count(s, 2, 3);
        lemma_with_count(s, 2, 2);
        lemma_with_count(s, 2, 1);
        assert(fours.len() == 0 && threes.len() == 0 && pairs.len() == 0);
        assert forall|v: int| 2 <= v <= 14 && v != 0 implies #[trigger] rank_count(s, v) <= 1 by {
            if rank_count(s, v) == 4 {
                assert(fours.contains(rank_of_value(v)));
            } else if rank_count(s, v) == 3 {
                assert(threes.contains(rank_of_value(v)));
            } else if rank_count(s, v) == 2 {
                assert(pairs.contains(rank_of_value(v)));
            }
        }
        lemma_desc_singles(s, 2, 0);
        assert(sorted_ranks(s) == singles);
        lemma_card_present(s, 0);
        crate::card::lemma_value_rank(s[0]@.rank.value());
        assert(singles.contains(rank_of_value(s[0]@.rank.value())));
        let h = singles[0];
        let rest = singles.drop_first();
        let ks = take(rest, 4);
        assert(spec_rank_hand(s) == HandRankSpec::HighCard(h, ks));
        assert forall|j: int| 0 <= j < ks.len() implies #[trigger] ks[j] == singles[j + 1] by {}
        assert forall|j: int| 0 <= j < ks.len() implies h.value() > (#[trigger] ks[j]).value() && present(s, ks[j].value()) by {
            assert(ks[j] == singles[j + 1]);
        }
        assert forall|i: int, j: int| 0 <= i < j < ks.len() implies (#[trigger] ks[i]).value() > (#[trigger] ks[j]).value() by {
            assert(ks[i] == singles[i + 1] && ks[j] == singles[j + 1]);
        }
        assert forall|i: int| 0 <= i < s.len() implies (#[trigger] s[i])@.rank.value() <= h.value() && (s[i]@.rank != h
            && !ks.contains(s[i]@.rank) ==> ks.len() == 4 && s[i]@.rank.value() < ks[3].value()) by {
            let r = s[i]@.rank;
            let v = r.value();
            crate::card::lemma_rank_value(r, h);
            crate::card::lemma_value_rank(v);
            lemma_card_present(s, i);
            assert(singles.contains(rank_of_value(v)));
            let x = choose|x: int| 0 <= x < singles.len() && singles[x] == rank_of_value(v);
            if x > 0 {
                assert(singles[0].value() > singles[x].value());
                if x - 1 < 4 {
                    assert(ks[x - 1] == singles[x]);
                    assert(ks.contains(r));
                } else {
                    assert(ks[3] == singles[4]);
                    if x > 4 {
                        assert(singles[4].value() > singles[x].value());
                    }
                }
            }
        }
    }
}

/// Every card counts toward its own suit and rank.
proof fn lemma_card_suit_present(s: Seq<Card>, i: int)
    requires
        0 <= i < s.len(),
    ensures
        suit_rank_count(s, s[i]@.suit, s[i]@.rank.value()) > 0,
    decreases s.len(),
{
    if i < s.len() - 1 {
        lemma_card_suit_present(s.drop_last(), i);
        assert(s.drop_last()[i] == s[i]);
    }
}

/// When no card of suit `su` repeats a rank, the ranks of that suit listed in order from `lo`
/// up lie between `lo` and 14, occur in that suit, come highest first, and include every rank
/// of that suit from `lo` up.
proof fn lemma_suit_desc(s: Seq<Card>, su: Suit, lo: int)
    requires
        2 <= lo,
        forall|v: int| #[trigger] suit_rank_count(s, su, v) <= 1,
    ensures
        forall|i: int| 0 <= i < suit_desc(s, su, lo).len() ==> lo <= (#[trigger] suit_desc(s, su, lo)[i]).value() <= 14
            && suit_rank_count(s, su, suit_desc(s, su, lo)[i].value()) == 1,
        forall|i: int, j: int| 0 <= i < j < suit_desc(s, su, lo).len() ==> (#[trigger] suit_desc(s, su, lo)[i]).value()
            > (#[trigger] suit_desc(s, su, lo)[j]).value(),
        forall|v: int| lo <= v <= 14 && #[trigger] suit_rank_count(s, su, v) == 1 ==> suit_desc(s, su, lo).contains(rank_of_value(v)),
    decreases 15 - lo,
{
    if lo <= 14 {
        lemma_suit_desc(s, su, lo + 1);
        let d1 = suit_desc(s, su, lo + 1);
        let d = suit_desc(s, su, lo);
        crate::card::lemma_value_rank(lo);
        if suit_rank_count(s, su, lo) == 1 {
            assert(copies(lo, 1) =~= seq![rank_of_value(lo)]);
            assert(d =~= d1.push(rank_of_value(lo)));
            assert forall|v: int| lo <= v <= 14 && #[trigger] suit_rank_count(s, su, v) == 1 implies d.contains(rank_of_value(v)) by {
                if v == lo {
                    assert(d[d.len() - 1] == rank_of_value(v));
                } else {
                    let x = choose|x: int| 0 <= x < d1.len() && d1[x] == rank_of_value(v);
                    assert(d[x] == d1[x]);
                }
            }
        } else {
            assert(copies(lo, 0) =~= Seq::<Rank>::empty());
            assert(d =~= d1);
        }
    }
}

/// A flush names the highest rank of its suit and, as kickers, the next four ranks of that
/// suit, highest first; the kickers are fewer only when no other card of the suit is left.
/// This holds of hands in which no card repeats both suit and rank, as in any hand dealt
/// from one deck.
pub proof fn lemma_flush(s: Seq<Card>)
    requires
        forall|su: Suit, v: int| #[trigger] suit_rank_count(s, su, v) <= 1,
    ensures
        spec_rank_hand(s) matches HandRankSpec::Flush(h, ks) ==> {
            let su = flush_suit(s);
            &&& suit_count(s, su) >= 5
            &&& suit_rank_count(s, su, h.value()) == 1
            &&& ks.len() <= 4
            &&& forall|j: int| 0 <= j < ks.len() ==> h.value() > (#[trigger] ks[j]).value() && suit_rank_count(s, su, ks[j].value()) == 1
            &&& forall|i: int, j: int| 0 <= i < j < ks.len() ==> (#[trigger] ks[i]).value() > (#[trigger] ks[j]).value()
            &&& forall|i: int| 0 <= i < s.len() && (#[trigger] s[i])@.suit == su ==> s[i]@.rank.value() <= h.value() && (s[i]@.rank != h
                && !ks.contains(s[i]@.rank) ==> ks.len() == 4 && s[i]@.rank.value() < ks[3].value())
        },
{
    if spec_rank_hand(s) is Flush {
        assert(has_flush(s));
        let su = flush_suit(s);
        let fr = suit_desc(s, su, 2);
        lemma_suit_desc(s, su, 2);
        assert(suit_count(s, su) >= 5);
        lemma_suit_card_present(s, su);
        let w = choose|w: int| 2 <= w <= 14 && #[trigger] suit_rank_count(s, su, w) > 0;
        lemma_suit_desc_nonempty(s, su, 2, w);
        let h = fr[0];
        let ks = take(fr.drop_first(), 4);
        assert(spec_rank_hand(s) == HandRankSpec::Flush(h, ks));
        assert forall|j: int| 0 <= j < ks.len() implies #[trigger] ks[j] == fr[j + 1] by {}
        assert forall|j: int| 0 <= j < ks.len() implies h.value() > (#[trigger] ks[j]).value() && suit_rank_count(s, su, ks[j].value()) == 1 by {
            assert(ks[j] == fr[j + 1]);
        }
        assert forall|i: int, j: int| 0 <= i < j < ks.len() implies (#[trigger] ks[i]).value() > (#[trigger] ks[j]).value() by {
            assert(ks[i] == fr[i + 1] && ks[j] == fr[j + 1]);
        }
        assert forall|i: int| 0 <= i < s.len() && (#[trigger] s[i])@.suit == su implies s[i]@.rank.value() <= h.value() && (s[i]@.rank
            != h && !ks.contains(s[i]@.rank) ==> ks.len() == 4 && s[i]@.rank.value() < ks[3].value()) by {
            let r = s[i]@.rank;
            let v = r.value();
            crate::card::lemma_rank_value(r, h);
            crate::card::lemma_value_rank(v);
            lemma_card_suit_present(s, i);
            assert(suit_rank_count(s, su, v) == 1);
            assert(fr.contains(rank_of_value(v)));
            let x = choose|x: int| 0 <= x < fr.len() && fr[x] == rank_of_value(v);
            if x > 0 {
                assert(fr[0].value() > fr[x].value());
                if x - 1 < 4 {
                    assert(ks[x - 1] == fr[x]);
                    assert(ks.contains(r));
                } else {
                    assert(ks[3] == fr[4]);
                    if x > 4 {
                        assert(fr[4].value() > fr[x].value());
                    }
                }
            }
        }
    }
}

/// Two distinct ranks listed with the same count make the list at least two long.
proof fn lemma_two_listed(s: Seq<Card>, c: nat, v: int, w: int)
    requires
        2 <= v <= 14,
        2 <= w <= 14,
        v != w,
        rank_count(s, v) == c,
        rank_count(s, w) == c,
    ensures
        with_count(s, 2, c).len() >= 2,
{
    lemma_with_count(s, 2, c);
    let l = with_count(s, 2, c);
    crate::card::lemma_value_rank(v);
    crate::card::lemma_value_rank(w);
    assert(l.contains(rank_of_value(v)) && l.contains(rank_of_value(w)));
    let x = choose|x: int| 0 <= x < l.len() && l[x] == rank_of_value(v);
    let y = choose|y: int| 0 <= y < l.len() && l[y] == rank_of_value(w);
    assert(x != y);
}

/// The category a hand is named by is the highest the cards make: a straight flush when they
/// hold one; otherwise four of a kind when a rank occurs four times; a full house when one
/// rank occurs three times and another at least twice; a flush; a straight; three of a kind;
/// two pair; one pair; high card. A flush or a straight is named only when the cards hold
/// one. This holds of hands in which no rank occurs more than four times.
pub proof fn lemma_strongest_category(s: Seq<Card>)
    requires
        rank_hand_defined(s),
        forall|v: int| #[trigger] rank_count(s, v) <= 4,
    ensures
        has_straight_flush(s) <==> category(spec_rank_hand(s)) >= 9,
        (exists|v: int| 2 <= v <= 14 && #[trigger] rank_count(s, v) == 4) ==> category(spec_rank_hand(s)) >= 8,
        (exists|v: int, w: int| 2 <= v <= 14 && 2 <= w <= 14 && v != w && #[trigger] rank_count(s, v) == 3 && #[trigger] rank_count(s, w) >= 2)
            ==> category(spec_rank_hand(s)) >= 7,
        has_flush(s) ==> category(spec_rank_hand(s)) >= 6,
        has_straight(s) ==> category(spec_rank_hand(s)) >= 5,
        (exists|v: int| 2 <= v <= 14 && #[trigger] rank_count(s, v) >= 3) ==> category(spec_rank_hand(s)) >= 4,
        (exists|v: int, w: int| 2 <= v <= 14 && 2 <= w <= 14 && v != w && #[trigger] rank_count(s, v) >= 2 && #[trigger] rank_count(s, w) >= 2)
            ==> category(spec_rank_hand(s)) >= 3,
        (exists|v: int| 2 <= v <= 14 && #[trigger] rank_count(s, v) >= 2) ==> category(spec_rank_hand(s)) >= 2,
        spec_rank_hand(s) is Flush ==> has_flush(s),
        spec_rank_hand(s) is Straight ==> has_straight(s),
{
    let fours = with_count(s, 2, 4);
    let threes = with_count(s, 2, 3);
    let pairs = with_count(s, 2, 2);
    lemma_with_count(s, 2, 4);
    lemma_with_count(s, 2, 3);
    lemma_with_count(s, 2, 2);
    // a rank that occurs at least twice is listed among the fours, threes or pairs
    assert forall|v: int| 2 <= v <= 14 && #[trigger] rank_count(s, v) >= 2 implies fours.len() + threes.len() + pairs.len() >= 1
        && (rank_count(s, v) >= 3 ==> fours.len() + threes.len() >= 1) by {
        crate::card::lemma_value_rank(v);
        if rank_count(s, v) == 4 {
            assert(fours.contains(rank_of_value(v)));
        } else if rank_count(s, v) == 3 {
            assert(threes.contains(rank_of_value(v)));
        } else {
            assert(pairs.contains(rank_of_value(v)));
        }
    }
    if exists|v: int| 2 <= v <= 14 && #[trigger] rank_count(s, v) == 4 {
        let v = choose|v: int| 2 <= v <= 14 && #[trigger] rank_count(s, v) == 4;
        assert(rank_count(s, v) >= 2);
    }
    if exists|v: int, w: int| 2 <= v <= 14 && 2 <= w <= 14 && v != w && #[trigger] rank_count(s, v) == 3 && #[trigger] rank_count(s, w) >= 2 {
        let (v, w) = choose|v: int, w: int| 2 <= v <= 14 && 2 <= w <= 14 && v != w && #[trigger] rank_count(s, v) == 3 && #[trigger] rank_count(s, w) >= 2;
        assert(rank_count(s, v) >= 2 && rank_count(s, w) >= 2);
        if rank_count(s, w) == 3 {
            lemma_two_listed(s, 3, v, w);
        }
    }
    if exists|v: int| 2 <= v <= 14 && #[trigger] rank_count(s, v) >= 3 {
        let v = choose|v: int| 2 <= v <= 14 && #[trigger] rank_count(s, v) >= 3;
        assert(rank_count(s, v) >= 2);
    }
    if exists|v: int, w: int| 2 <= v <= 14 && 2 <= w <= 14 && v != w && #[trigger] rank_count(s, v) >= 2 && #[trigger] rank_count(s, w) >= 2 {
        let (v, w) = choose|v: int, w: int| 2 <= v <= 14 && 2 <= w <= 14 && v != w && #[trigger] rank_count(s, v) >= 2 && #[trigger] rank_count(s, w) >= 2;
        if rank_count(s, v) == 2 && rank_count(s, w) == 2 {
            lemma_two_listed(s, 2, v, w);
        }
    }
    if exists|v: int| 2 <= v <= 14 && #[trigger] rank_count(s, v) >= 2 {
        let v = choose|v: int| 2 <= v <= 14 && #[trigger] rank_count(s, v) >= 2;
        assert(rank_count(s, v) >= 2);
    }
}

/// A straight is named by the top card of the highest straight the cards hold: its five
/// ranks occur (Ace to Five for a Five-high straight), and no straight with a higher top card
/// does. A straight flush is named likewise by the highest straight within one suit, and is
/// a royal flush exactly when that top card is an Ace.
pub proof fn lemma_straight_named(s: Seq<Card>)
    ensures
        spec_rank_hand(s) matches HandRankSpec::Straight(r) ==> {
            &&& 5 <= r.value() <= 14
            &&& r.value() >= 6 ==> run_from(s, r.value() - 4)
            &&& r.value() == 5 ==> ace_low(s)
            &&& forall|x: int| 2 <= x && r.value() - 4 < x <= 10 ==> !#[trigger] run_from(s, x)
        },
        spec_rank_hand(s) matches HandRankSpec::StraightFlush(r) ==> {
            &&& 5 <= r.value() <= 13
            &&& exists|su: Suit| #[trigger] suit_straight_top(s, su, 14) == r.value()
            &&& forall|su: Suit, x: int| 2 <= x && r.value() - 4 < x <= 10 ==> !#[trigger] suit_run_from(s, su, x)
        },
        spec_rank_hand(s) is RoyalFlush ==> exists|su: Suit| #[trigger] suit_straight_top(s, su, 14) == 14,
{
    if spec_rank_hand(s) is Straight {
        lemma_highest_straight(s);
        crate::card::lemma_value_rank(straight_top(s, 14));
    }
    if spec_rank_hand(s) is StraightFlush || spec_rank_hand(s) is RoyalFlush {
        lemma_highest_straight_flush(s);
        crate::card::lemma_value_rank(straight_flush_top(s));
    }
}

/// Two pair names its two highest pairs, the higher first, and as kicker the highest rank
/// among the other cards: no card outside the two pairs is higher than the kicker. This holds
/// of hands in which no rank occurs more than four times, as in any hand dealt from one deck.
pub proof fn lemma_two_pair_kicker(s: Seq<Card>)
    requires
        rank_hand_defined(s),
        forall|v: int| #[trigger] rank_count(s, v) <= 4,
    ensures
        spec_rank_hand(s) matches HandRankSpec::TwoPair(a, b, k) ==> {
            &&& rank_count(s, a.value()) == 2 && rank_count(s, b.value()) == 2
            &&& a.value() > b.value()
            &&& forall|v: int| 2 <= v <= 14 && v != a.value() && v != b.value() && #[trigger] rank_count(s, v) >= 2 ==> v < b.value()
            &&& k != a && k != b && present(s, k.value())
            &&& forall|i: int| 0 <= i < s.len() && (#[trigger] s[i])@.rank != a && s[i]@.rank != b ==> s[i]@.rank.value() <= k.value()
        },
{
    let fours = with_count(s, 2, 4);
    let threes = with_count(s, 2, 3);
    let pairs = with_count(s, 2, 2);
    let singles = with_count(s, 2, 1);
    if spec_rank_hand(s) is TwoPair {
        lemma_with_count(s, 2, 4);
        lemma_with_count(s, 2, 3);
        lemma_with_count(s, 2, 2);
        lemma_with_count(s, 2, 1);
        assert(!has_straight_flush(s) && fours.len() == 0 && threes.len() == 0 && pairs.len() >= 2);
        let a = pairs[0];
        let b = pairs[1];
        let k = two_pair_kicker(pairs, singles);
        assert(spec_rank_hand(s) == HandRankSpec::TwoPair(a, b, k));
        // a rank that occurs neither three nor four times, and at least twice, is a pair
        assert forall|v: int| 2 <= v <= 14 && #[trigger] rank_count(s, v) >= 2 implies rank_count(s, v) == 2 by {
            if rank_count(s, v) == 4 {
                assert(fours.contains(rank_of_value(v)));
            } else if rank_count(s, v) == 3 {
                assert(threes.contains(rank_of_value(v)));
            }
        }
        // every pair besides the two named ones is below them, at most the third pair
        assert forall|v: int| 2 <= v <= 14 && v != a.value() && v != b.value() && #[trigger] rank_count(s, v) == 2 implies pairs.len()
            >= 3 && v <= pairs[2].value() && v < b.value() by {
            assert(pairs.contains(rank_of_value(v)));
            let x = choose|x: int| 0 <= x < pairs.len() && pairs[x] == rank_of_value(v);
            crate::card::lemma_value_rank(v);
            assert(pairs[x].value() == v);
            assert(x != 0 && x != 1);
            if x > 2 {
                assert(pairs[2].value() > pairs[x].value());
            }
            assert(pairs[1].value() > pairs[x].value());
        }
        // every single card is at most the highest single
        assert forall|v: int| 2 <= v <= 14 && #[trigger] rank_count(s, v) == 1 implies singles.len() >= 1 && v <= singles[0].value() by {
            assert(singles.contains(rank_of_value(v)));
            let x = choose|x: int| 0 <= x < singles.len() && singles[x] == rank_of_value(v);
            crate::card::lemma_value_rank(v);
            if x > 0 {
                assert(singles[0].value() > singles[x].value());
            }
        }
        assert(pairs[0].value() > pairs[1].value());
        // the kicker
        if pairs.len() >= 3 && (singles.len() == 0 || pairs[2].value() > singles[0].value()) {
            assert(k == pairs[2]);
            assert(pairs[1].value() > pairs[2].value() && pairs[0].value() > pairs[2].value());
            assert(rank_count(s, k.value()) == 2);
        } else {
            assert(singles.len() >= 1);
            assert(k == singles[0]);
            assert(rank_count(s, k.value()) == 1);
        }
        crate::card::lemma_rank_value(k, a);
        crate::card::lemma_rank_value(k, b);
        assert forall|i: int| 0 <= i < s.len() && (#[trigger] s[i])@.rank != a && s[i]@.rank != b implies s[i]@.rank.value()
            <= k.value() by {
            let r = s[i]@.rank;
            let v = r.value();
            crate::card::lemma_rank_value(r, a);
            crate::card::lemma_rank_value(r, b);
            lemma_card_present(s, i);
            assert(rank_count(s, v) <= 4);
            if rank_count(s, v) >= 2 {
                assert(rank_count(s, v) == 2);
                assert(pairs.len() >= 3 && v <= pairs[2].value());
            } else {
                assert(rank_count(s, v) == 1);
                assert(singles.len() >= 1 && v <= singles[0].value());
            }
        }
    }
}

/// A suit that occurs has a card of some rank in it.
proof fn lemma_suit_card_present(s: Seq<Card>, su: Suit)
    requires
        suit_count(s, su) > 0,
    ensures
        exists|v: int| 2 <= v <= 14 && #[trigger] suit_rank_count(s, su, v) > 0,
    decreases s.len(),
{
    if s.last()@.suit == su {
        let v = s.last()@.rank.value();
        assert(2 <= v <= 14);
        assert(suit_rank_count(s, su, v) > 0);
    } else {
        lemma_suit_card_present(s.drop_last(), su);
        let w = choose|w: int| 2 <= w <= 14 && #[trigger] suit_rank_count(s.drop_last(), su, w) > 0;
        assert(suit_rank_count(s, su, w) > 0);
    }
}

/// The ranks of a suit listed in order include every rank of it that occurs.
proof fn lemma_suit_desc_nonempty(s: Seq<Card>, su: Suit, lo: int, v: int)
    requires
        lo <= v <= 14,
        suit_rank_count(s, su, v) > 0,
    ensures
        suit_desc(s, su, lo).len() > 0,
    decreases 15 - lo,
{
    if lo < v {
        lemma_suit_desc_nonempty(s, su, lo + 1, v);
    }
}

/// A hand with a straight flush has one with a top card between 5 and 14.
proof fn lemma_straight_flush_top(s: Seq<Card>)
    requires
        has_straight_flush(s),
    ensures
        5 <= straight_flush_top(s) <= 14,
{
    lemma_suit_straight_top(s, Suit::Clubs, 14);
    lemma_suit_straight_top(s, Suit::Spades, 14);
    lemma_suit_straight_top(s, Suit::Hearts, 14);
    lemma_suit_straight_top(s, Suit::Diamonds, 14);
}

// ---------------------------------------------------------------------------
// Tally of a hand
// ---------------------------------------------------------------------------

/// Counts of a hand: by rank value, by suit and rank value, and by suit.
struct Tally {
    ranks: Vec<usize>,
    suit_ranks: Vec<usize>,
    suits: Vec<usize>,
}

/// `t` holds the counts of the cards `s`.
spec fn tally_of(t: &Tally, s: Seq<Card>) -> bool {
    &&& t.ranks@.len() == 15
    &&& t.suit_ranks@.len() == 60
    &&& t.suits@.len() == 4
    &&& forall|v: int| 0 <= v < 15 ==> t.ranks@[v] == #[trigger] rank_count(s, v)
    &&& forall|su: Suit, v: int|
        0 <= v < 15 ==> t.suit_ranks@[su.index() * 15 + v] == #[trigger] suit_rank_count(s, su, v)
    &&& forall|su: Suit| t.suits@[su.index()] == #[trigger] suit_count(s, su)
}

/// A vector of `n` zeros.
fn zeros(n: usize) -> (z: Vec<usize>)
    ensures
        z@ == Seq::new(n as nat, |i: int| 0usize),
{
    let mut z: Vec<usize> = Vec::new();
    let mut i: usize = 0;
    while i < n
        invariant
            i <= n,
            z@ == Seq::new(i as nat, |j: int| 0usize),
        decreases n - i,
    {
        z.push(0);
        i = i + 1;
        assert(z@ =~= Seq::new(i as nat, |j: int| 0usize));
    }
    z
}

/// The index of a rank value in the count tables.
fn rank_index(r: &Rank) -> (i: usize)
    ensures
        i as int == r.value(),
{
    r.to_u8() as usize
}

/// Counts the cards of a hand by rank, by suit and rank, and by suit.
fn tally(cards: &[Card]) -> (t: Tally)
    ensures
        tally_of(&t, cards@),
{
    let mut ranks = zeros(15);
    let mut suit_ranks = zeros(60);
    let mut suits = zeros(4);
    let n = cards.len();
    let mut i: usize = 0;
    assert(cards@.subrange(0, 0) =~= Seq::<Card>::empty());
    while i < n
        invariant
            n == cards@.len(),
            i <= n,
            ranks@.len() == 15,
            suit_ranks@.len() == 60,
            suits@.len() == 4,
            forall|v: int| 0 <= v < 15 ==> ranks@[v] == #[trigger] rank_count(cards@.subrange(0, i as int), v),
            forall|su: Suit, v: int|
                0 <= v < 15 ==> suit_ranks@[su.index() * 15 + v] == #[trigger] suit_rank_count(
                    cards@.subrange(0, i as int),
                    su,
                    v,
                ),
            forall|su: Suit| suits@[su.index()] == #[trigger] suit_count(cards@.subrange(0, i as int), su),
            forall|v: int| 0 <= v < 60 ==> #[trigger] suit_ranks@[v] <= i,
            forall|v: int| 0 <= v < 15 ==> #[trigger] ranks@[v] <= i,
            forall|v: int| 0 <= v < 4 ==> #[trigger] suits@[v] <= i,
        decreases n - i,
    {
        let card = &cards[i];
        let rv = rank_index(card.rank());
        let si = card.suit().to_index();
        proof {
            lemma_count_step(cards@, i as int);
            assert(cards@[i as int] == *card);
        }
        let old_ranks = ranks.clone();
        let old_suit_ranks = suit_ranks.clone();
        let old_suits = suits.clone();
        let x = ranks[rv];
        ranks.set(rv, x + 1);
        let y = suit_ranks[si * 15 + rv];
        suit_ranks.set(si * 15 + rv, y + 1);
        let z = suits[si];
        suits.set(si, z + 1);
        i = i + 1;
        proof {
            assert forall|su: Suit, v: int| 0 <= v < 15 implies suit_ranks@[su.index() * 15 + v]
                == #[trigger] suit_rank_count(cards@.subrange(0, i as int), su, v) by {
                if su == card@.suit && v == rv as int {
                } else {
                    assert(su.index() * 15 + v != si * 15 + rv);
                    assert(old_suit_ranks@[su.index() * 15 + v] == suit_rank_count(
                        cards@.subrange(0, i - 1),
                        su,
                        v,
                    ));
                }
            }
            assert forall|su: Suit| suits@[su.index()] == #[trigger] suit_count(
                cards@.subrange(0, i as int),
                su,
            ) by {
                if su != card@.suit {
                    assert(su.index() != si);
                    assert(old_suits@[su.index()] == suit_count(cards@.subrange(0, i - 1), su));
                }
            }
        }
    }
    assert(cards@.subrange(0, n as int) =~= cards@);
    Tally { ranks, suit_ranks, suits }
}

/// Some card of the tallied hand has rank value `v`.
fn tally_present(t: &Tally, Ghost(s): Ghost<Seq<Card>>, v: usize) -> (r: bool)
    requires
        tally_of(t, s),
        v < 15,
    ensures
        r == present(s, v as int),
{
    t.ranks[v] > 0
}

/// How many cards of suit `su` with rank value `v` the tallied hand holds.
fn tally_suit_rank(t: &Tally, Ghost(s): Ghost<Seq<Card>>, su: Suit, v: usize) -> (r: usize)
    requires
        tally_of(t, s),
        v < 15,
    ensures
        r == suit_rank_count(s, su, v as int),
{
    let i = su.to_index();
    t.suit_ranks[i * 15 + v]
}

/// Whether the tallied hand holds a flush.
fn tally_flush(t: &Tally, Ghost(s): Ghost<Seq<Card>>) -> (r: bool)
    requires
        tally_of(t, s),
    ensures
        r == has_flush(s),
{
    proof {
        assert(t.suits@[Suit::Clubs.index()] == suit_count(s, Suit::Clubs));
        assert(t.suits@[Suit::Spades.index()] == suit_count(s, Suit::Spades));
        assert(t.suits@[Suit::Hearts.index()] == suit_count(s, Suit::Hearts));
        assert(t.suits@[Suit::Diamonds.index()] == suit_count(s, Suit::Diamonds));
    }
    t.suits[0] >= 5 || t.suits[1] >= 5 || t.suits[2] >= 5 || t.suits[3] >= 5
}

/// Whether the tallied hand holds a straight.
fn tally_straight(t: &Tally, Ghost(s): Ghost<Seq<Card>>) -> (r: bool)
    requires
        tally_of(t, s),
    ensures
        r == has_straight(s),
{
    if tally_present(t, Ghost(s), 14) && tally_present(t, Ghost(s), 2) && tally_present(t, Ghost(s), 3)
        && tally_present(t, Ghost(s), 4) && tally_present(t, Ghost(s), 5) {
        return true;
    }
    let mut r: usize = 2;
    while r <= 10
        invariant
            2 <= r <= 11,
            tally_of(t, s),
            !ace_low(s),
            forall|q: int| 2 <= q < r ==> !#[trigger] run_from(s, q),
        decreases 11 - r,
    {
        if tally_present(t, Ghost(s), r) && tally_present(t, Ghost(s), r + 1) && tally_present(
            t,
            Ghost(s),
            r + 2,
        ) && tally_present(t, Ghost(s), r + 3) && tally_present(t, Ghost(s), r + 4) {
            assert(run_from(s, r as int));
            return true;
        }
        r = r + 1;
    }
    false
}

/// Whether the cards of suit `su` in the tallied hand hold a straight.
fn tally_straight_flush_in(t: &Tally, Ghost(s): Ghost<Seq<Card>>, su: Suit) -> (r: bool)
    requires
        tally_of(t, s),
    ensures
        r == straight_flush_in(s, su),
{
    if tally_suit_rank(t, Ghost(s), su, 14) > 0 && tally_suit_rank(t, Ghost(s), su, 2) > 0
        && tally_suit_rank(t, Ghost(s), su, 3) > 0 && tally_suit_rank(t, Ghost(s), su, 4) > 0
        && tally_suit_rank(t, Ghost(s), su, 5) > 0 {
        return true;
    }
    let mut r: usize = 2;
    while r <= 10
        invariant
            2 <= r <= 11,
            tally_of(t, s),
            !suit_ace_low(s, su),
            forall|q: int| 2 <= q < r ==> !#[trigger] suit_run_from(s, su, q),
        decreases 11 - r,
    {
        if tally_suit_rank(t, Ghost(s), su, r) > 0 && tally_suit_rank(t, Ghost(s), su, r + 1) > 0
            && tally_suit_rank(t, Ghost(s), su, r + 2) > 0 && tally_suit_rank(t, Ghost(s), su, r + 3)
            > 0 && tally_suit_rank(t, Ghost(s), su, r + 4) > 0 {
            assert(suit_run_from(s, su, r as int));
            return true;
        }
        r = r + 1;
    }
    false
}

/// Whether the tallied hand holds a straight flush.
fn tally_straight_flush(t: &Tally, Ghost(s): Ghost<Seq<Card>>, len: usize) -> (r: bool)
    requires
        tally_of(t, s),
        len == s.len(),
    ensures
        r == has_straight_flush(s),
{
    if len < 5 {
        return false;
    }
    tally_straight_flush_in(t, Ghost(s), Suit::Clubs) || tally_straight_flush_in(
        t,
        Ghost(s),
        Suit::Spades,
    ) || tally_straight_flush_in(t, Ghost(s), Suit::Hearts) || tally_straight_flush_in(
        t,
        Ghost(s),
        Suit::Diamonds,
    )
}

/// The top card of the highest straight of the tallied hand (0 when there is none).
fn tally_straight_top(t: &Tally, Ghost(s): Ghost<Seq<Card>>) -> (r: usize)
    requires
        tally_of(t, s),
    ensures
        r == straight_top(s, 14),
{
    let mut v: usize = 14;
    while v >= 6
        invariant
            5 <= v <= 14,
            tally_of(t, s),
            straight_top(s, 14) == straight_top(s, v as int),
        decreases v,
    {
        if t.ranks[v - 4] > 0 && t.ranks[v - 3] > 0 && t.ranks[v - 2] > 0 && t.ranks[v - 1] > 0 && t.ranks[v]
            > 0 {
            return v;
        }
        v = v - 1;
    }
    if t.ranks[14] > 0 && t.ranks[2] > 0 && t.ranks[3] > 0 && t.ranks[4] > 0 && t.ranks[5] > 0 {
        5
    } else {
        0
    }
}

/// The top card of the highest straight in suit `su` of the tallied hand (0 when there is
/// none).
fn tally_suit_straight_top(t: &Tally, Ghost(s): Ghost<Seq<Card>>, su: Suit) -> (r: usize)
    requires
        tally_of(t, s),
    ensures
        r == suit_straight_top(s, su, 14),
{
    let mut v: usize = 14;
    while v >= 6
        invariant
            5 <= v <= 14,
            tally_of(t, s),
            suit_straight_top(s, su, 14) == suit_straight_top(s, su, v as int),
        decreases v,
    {
        if tally_suit_rank(t, Ghost(s), su, v - 4) > 0 && tally_suit_rank(t, Ghost(s), su, v - 3) > 0
            && tally_suit_rank(t, Ghost(s), su, v - 2) > 0 && tally_suit_rank(t, Ghost(s), su, v - 1) > 0
            && tally_suit_rank(t, Ghost(s), su, v) > 0 {
            return v;
        }
        v = v - 1;
    }
    if tally_suit_rank(t, Ghost(s), su, 14) > 0 && tally_suit_rank(t, Ghost(s), su, 2) > 0
        && tally_suit_rank(t, Ghost(s), su, 3) > 0 && tally_suit_rank(t, Ghost(s), su, 4) > 0
        && tally_suit_rank(t, Ghost(s), su, 5) > 0 {
        5
    } else {
        0
    }
}

/// The top card of the highest straight flush of the tallied hand (0 when there is none).
fn tally_straight_flush_top(t: &Tally, Ghost(s): Ghost<Seq<Card>>) -> (r: usize)
    requires
        tally_of(t, s),
    ensures
        r == straight_flush_top(s),
{
    let c = tally_suit_straight_top(t, Ghost(s), Suit::Clubs);
    let sp = tally_suit_straight_top(t, Ghost(s), Suit::Spades);
    let h = tally_suit_straight_top(t, Ghost(s), Suit::Hearts);
    let d = tally_suit_straight_top(t, Ghost(s), Suit::Diamonds);
    let a = if c >= sp { c } else { sp };
    let b = if h >= d { h } else { d };
    if a >= b { a } else { b }
}

/// The rank with value `v`.
fn rank_from_index(v: usize) -> (r: Rank)
    requires
        2 <= v <= 14,
    ensures
        r == rank_of_value(v as int),
        r.value() == v as int,
{
    Rank::to_rank(v as u8)
}

/// The ranks of the tallied hand, highest first, leaving out value `skip`.
fn tally_desc(t: &Tally, Ghost(s): Ghost<Seq<Card>>, skip: usize) -> (out: Vec<Rank>)
    requires
        tally_of(t, s),
    ensures
        out@ == desc_ranks(s, 2, skip as int),
{
    let mut out: Vec<Rank> = Vec::new();
    let mut v: usize = 15;
    while v > 2
        invariant
            2 <= v <= 15,
            tally_of(t, s),
            out@ == desc_ranks(s, v as int, skip as int),
        decreases v,
    {
        v = v - 1;
        if v != skip {
            let n = t.ranks[v];
            let rank = rank_from_index(v);
            let ghost before = out@;
            let mut k: usize = 0;
            while k < n
                invariant
                    2 <= v <= 14,
                    k <= n,
                    n == rank_count(s, v as int),
                    rank == rank_of_value(v as int),
                    out@ == before + copies(v as int, k as nat),
                decreases n - k,
            {
                out.push(rank);
                k = k + 1;
                assert(out@ =~= before + copies(v as int, k as nat));
            }
        }
    }
    out
}

/// The ranks of the cards of suit `su` in the tallied hand, highest first.
fn tally_suit_desc(t: &Tally, Ghost(s): Ghost<Seq<Card>>, su: Suit) -> (out: Vec<Rank>)
    requires
        tally_of(t, s),
    ensures
        out@ == suit_desc(s, su, 2),
{
    let mut out: Vec<Rank> = Vec::new();
    let mut v: usize = 15;
    while v > 2
        invariant
            2 <= v <= 15,
            tally_of(t, s),
            out@ == suit_desc(s, su, v as int),
        decreases v,
    {
        v = v - 1;
        let n = tally_suit_rank(t, Ghost(s), su, v);
        let rank = rank_from_index(v);
        let ghost before = out@;
        let mut k: usize = 0;
        while k < n
            invariant
                2 <= v <= 14,
                k <= n,
                n == suit_rank_count(s, su, v as int),
                rank == rank_of_value(v as int),
                out@ == before + copies(v as int, k as nat),
            decreases n - k,
        {
            out.push(rank);
            k = k + 1;
            assert(out@ =~= before + copies(v as int, k as nat));
        }
    }
    out
}

/// The suit of the flush of the tallied hand, which holds one.
fn tally_flush_suit(t: &Tally, Ghost(s): Ghost<Seq<Card>>) -> (su: Suit)
    requires
        tally_of(t, s),
    ensures
        su == flush_suit(s),
{
    proof {
        assert(t.suits@[Suit::Clubs.index()] == suit_count(s, Suit::Clubs));
        assert(t.suits@[Suit::Spades.index()] == suit_count(s, Suit::Spades));
        assert(t.suits@[Suit::Hearts.index()] == suit_count(s, Suit::Hearts));
        assert(t.suits@[Suit::Diamonds.index()] == suit_count(s, Suit::Diamonds));
    }
    if t.suits[0] >= 5 {
        Suit::Clubs
    } else if t.suits[1] >= 5 {
        Suit::Spades
    } else if t.suits[2] >= 5 {
        Suit::Hearts
    } else {
        Suit::Diamonds
    }
}

/// The ranks of the tallied hand that occur exactly `c` times, highest first.
fn tally_with_count(t: &Tally, Ghost(s): Ghost<Seq<Card>>, c: usize) -> (out: Vec<Rank>)
    requires
        tally_of(t, s),
    ensures
        out@ == with_count(s, 2, c as nat),
{
    let mut out: Vec<Rank> = Vec::new();
    let mut v: usize = 15;
    while v > 2
        invariant
            2 <= v <= 15,
            tally_of(t, s),
            out@ == with_count(s, v as int, c as nat),
        decreases v,
    {
        v = v - 1;
        if t.ranks[v] == c {
            out.push(rank_from_index(v));
        }
    }
    out
}

/// The first `n` ranks of `v` from position `start` on.
fn take_from(v: &Vec<Rank>, start: usize, n: usize) -> (out: Vec<Rank>)
    requires
        start <= v@.len(),
    ensures
        out@ == take(v@.subrange(start as int, v@.len() as int), n as int),
{
    let len = v.len();
    let end = if len - start <= n {
        len
    } else {
        start + n
    };
    let mut out: Vec<Rank> = Vec::new();
    let mut i = start;
    while i < end
        invariant
            start <= i <= end <= len,
            len == v@.len(),
            end == (if len - start <= n { len as int } else { start + n }),
            out@ == v@.subrange(start as int, i as int),
        decreases end - i,
    {
        out.push(v[i]);
        i = i + 1;
        assert(out@ =~= v@.subrange(start as int, i as int));
    }
    assert(out@ =~= take(v@.subrange(start as int, v@.len() as int), n as int));
    out
}

// ---------------------------------------------------------------------------
// Hand ranking
// ---------------------------------------------------------------------------

/// Hand classification rankings, containing the highest rank in the classification for
/// straight/flush and/or the rank of the pair/three/four of a kind, plus kickers.
/// Where a hand holds several classifications, the highest one is returned.
#[derive(Debug, Clone, Ord)]
pub enum HandRank {
    HighCard(Rank, Vec<Rank>),
    OnePair(Rank, Vec<Rank>),
    TwoPair(Rank, Rank, Rank),
    ThreeOfAKind(Rank, Vec<Rank>),
    Straight(Rank),
    Flush(Rank, Vec<Rank>),
    FullHouse(Rank, Rank),
    FourOfAKind(Rank, Rank),
    StraightFlush(Rank),
    RoyalFlush,
}

impl View for HandRank {
    type V = HandRankSpec;

    open spec fn view(&self) -> HandRankSpec {
        match self {
            HandRank::HighCard(r, k) => HandRankSpec::HighCard(*r, k@),
            HandRank::OnePair(r, k) => HandRankSpec::OnePair(*r, k@),
            HandRank::TwoPair(a, b, k) => HandRankSpec::TwoPair(*a, *b, *k),
            HandRank::ThreeOfAKind(r, k) => HandRankSpec::ThreeOfAKind(*r, k@),
            HandRank::Straight(r) => HandRankSpec::Straight(*r),
            HandRank::Flush(r, k) => HandRankSpec::Flush(*r, k@),
            HandRank::FullHouse(a, b) => HandRankSpec::FullHouse(*a, *b),
            HandRank::FourOfAKind(a, b) => HandRankSpec::FourOfAKind(*a, *b),
            HandRank::StraightFlush(r) => HandRankSpec::StraightFlush(*r),
            HandRank::RoyalFlush => HandRankSpec::RoyalFlush,
        }
    }
}

impl HandRank {
    /// The category of the classification, from 1 for a high card up to 10 for a royal flush.
    pub fn rank_value(&self) -> (v: u8)
        ensures
            v as int == category(self@),
    {
        match self {
            HandRank::HighCard(_, _) => 1,
            HandRank::OnePair(_, _) => 2,
            HandRank::TwoPair(_, _, _) => 3,
            HandRank::ThreeOfAKind(_, _) => 4,
            HandRank::Straight(_) => 5,
            HandRank::Flush(_, _) => 6,
            HandRank::FullHouse(_, _) => 7,
            HandRank::FourOfAKind(_, _) => 8,
            HandRank::StraightFlush(_) => 9,
            HandRank::RoyalFlush => 10,
        }
    }
}

/// Hand of cards.
#[derive(Debug)]
pub struct Hand {
    cards: Vec<Card>,
}

impl View for Hand {
    type V = Seq<Card>;

    closed spec fn view(&self) -> Seq<Card> {
        self.cards@
    }
}

impl Hand {
    /// create a new hand from a vector of cards
    pub fn new(cards: Vec<Card>) -> (h: Hand)
        ensures
            h@ == cards@,
    {
        Hand { cards }
    }

    /// the cards of this hand, in the order they were given
    pub fn cards(&self) -> (c: &Vec<Card>)
        ensures
            c@ == self@,
    {
        &self.cards
    }

    /// true if the poker hand is a flush: at least five cards share a suit
    pub fn is_flush(cards: &[Card]) -> (r: bool)
        ensures
            r == has_flush(cards@),
    {
        let t = tally(cards);
        tally_flush(&t, Ghost(cards@))
    }

    /// true if the poker hand holds a straight; an Ace may also count low (Ace to Five)
    pub fn is_straight(cards: &[Card]) -> (r: bool)
        ensures
            r == has_straight(cards@),
    {
        let t = tally(cards);
        tally_straight(&t, Ghost(cards@))
    }

    /// true if the poker hand is a straight flush; hands may hold more or fewer than 5 cards
    pub fn is_straight_flush(cards: &[Card]) -> (r: bool)
        ensures
            r == has_straight_flush(cards@),
    {
        let t = tally(cards);
        tally_straight_flush(&t, Ghost(cards@), cards.len())
    }

    /// whether `rank_hand` classifies these cards
    pub fn is_rankable(cards: &[Card]) -> (r: bool)
        ensures
            r == rank_hand_defined(cards@),
    {
        let ghost s = cards@;
        let len = cards.len();
        if len == 0 {
            return false;
        }
        let t = tally(cards);
        if tally_straight_flush(&t, Ghost(s), len) {
            return true;
        }
        let fours = tally_with_count(&t, Ghost(s), 4);
        let threes = tally_with_count(&t, Ghost(s), 3);
        let pairs = tally_with_count(&t, Ghost(s), 2);
        let singles = tally_with_count(&t, Ghost(s), 1);
        if fours.len() >= 1 {
            let x = rank_index(&fours[0]);
            assert(t.ranks@[x as int] == rank_count(s, x as int));
            if t.ranks[x] >= len {
                return false;
            }
        }
        if fours.len() == 0 && threes.len() == 0 && pairs.len() >= 2 && singles.len() == 0 && pairs.len() < 3 {
            return false;
        }
        true
    }

    /// the ranks of the cards with how often each occurs, most frequent first and,
    /// among equally frequent ranks, highest first
    pub fn count_num_ranks(cards: &[Card]) -> (freqs: Vec<(Rank, u8)>)
        requires
            forall|v: int| 2 <= v <= 14 ==> #[trigger] rank_count(cards@, v) <= 255,
        ensures
            forall|i: int|
                0 <= i < freqs@.len() ==> #[trigger] freqs@[i].1 as int == rank_count(
                    cards@,
                    freqs@[i].0.value(),
                ) && freqs@[i].1 > 0,
            forall|v: int|
                2 <= v <= 14 && #[trigger] present(cards@, v) ==> exists|i: int|
                    0 <= i < freqs@.len() && #[trigger] freqs@[i].0 == rank_of_value(v),
            forall|i: int, j: int|
                0 <= i < j < freqs@.len() ==> freq_before(#[trigger] freqs@[i], #[trigger] freqs@[j]),
    {
        let ghost s = cards@;
        let t = tally(cards);
        let mut out: Vec<(Rank, u8)> = Vec::new();
        let mut c: usize = 256;
        while c > 1
            invariant
                1 <= c <= 256,
                tally_of(&t, s),
                forall|v: int| 2 <= v <= 14 ==> #[trigger] rank_count(s, v) <= 255,
                forall|i: int|
                    0 <= i < out@.len() ==> #[trigger] out@[i].1 as int == rank_count(
                        s,
                        out@[i].0.value(),
                    ) && out@[i].1 >= c && out@[i].1 > 0,
                forall|i: int, j: int|
                    0 <= i < j < out@.len() ==> freq_before(#[trigger] out@[i], #[trigger] out@[j]),
                forall|w: int|
                    2 <= w <= 14 && #[trigger] rank_count(s, w) >= c ==> exists|i: int|
                        0 <= i < out@.len() && #[trigger] out@[i].0 == rank_of_value(w),
            decreases c,
        {
            c = c - 1;
            let mut v: usize = 15;
            while v > 2
                invariant
                    1 <= c <= 255,
                    2 <= v <= 15,
                    tally_of(&t, s),
                    forall|i: int|
                        0 <= i < out@.len() ==> #[trigger] out@[i].1 as int == rank_count(
                            s,
                            out@[i].0.value(),
                        ) && out@[i].1 >= c && out@[i].1 > 0,
                    forall|i: int|
                        0 <= i < out@.len() ==> (#[trigger] out@[i]).1 > c || (out@[i].1 == c
                            && out@[i].0.value() >= v),
                    forall|i: int, j: int|
                        0 <= i < j < out@.len() ==> freq_before(#[trigger] out@[i], #[trigger] out@[j]),
                    forall|w: int|
                        2 <= w <= 14 && (#[trigger] rank_count(s, w) > c || (rank_count(s, w) == c
                            && w >= v)) ==> exists|i: int|
                            0 <= i < out@.len() && #[trigger] out@[i].0 == rank_of_value(w),
                decreases v,
            {
                v = v - 1;
                if t.ranks[v] == c {
                    let rank = rank_from_index(v);
                    let ghost before = out@;
                    out.push((rank, c as u8));
                    proof {
                        assert(out@[out@.len() - 1] == (rank, c as u8));
                        assert forall|w: int|
                            2 <= w <= 14 && (#[trigger] rank_count(s, w) > c || (rank_count(s, w)
                                == c && w >= v)) implies exists|i: int|
                            0 <= i < out@.len() && #[trigger] out@[i].0 == rank_of_value(w) by {
                            if w == v {
                                assert(out@[before.len() as int].0 == rank_of_value(w));
                            } else {
                                let i = choose|i: int|
                                    0 <= i < before.len() && #[trigger] before[i].0
                                        == rank_of_value(w);
                                assert(out@[i] == before[i]);
                            }
                        }
                    }
                } else {
                    proof {
                        assert forall|w: int|
                            2 <= w <= 14 && (#[trigger] rank_count(s, w) > c || (rank_count(s, w)
                                == c && w >= v)) implies exists|i: int|
                            0 <= i < out@.len() && #[trigger] out@[i].0 == rank_of_value(w) by {
                            if w == v {
                                assert(t.ranks@[w] == rank_count(s, w));
                            }
                        }
                    }
                }
            }
            proof {
                assert forall|w: int| 2 <= w <= 14 && #[trigger] rank_count(s, w) >= c implies exists|
                    i: int,
                |
                    0 <= i < out@.len() && #[trigger] out@[i].0 == rank_of_value(w) by {
                    assert(rank_count(s, w) > c || (rank_count(s, w) == c && w >= v));
                }
            }
        }
        proof {
            assert forall|v: int| 2 <= v <= 14 && #[trigger] present(s, v) implies exists|i: int|
                0 <= i < out@.len() && #[trigger] out@[i].0 == rank_of_value(v) by {
                assert(rank_count(s, v) >= c);
            }
        }
        out
    }

    /// return the poker hand classified, the categories tried from the highest down
    pub fn rank_hand(cards: &[Card]) -> (r: HandRank)
        requires
            rank_hand_defined(cards@),
        ensures
            r@ == spec_rank_hand(cards@),
    {
        let ghost s = cards@;
        let len = cards.len();
        let t = tally(cards);
        proof {
            lemma_card_present(s, 0);
            lemma_desc_nonempty(s, 2, 0, s[0]@.rank.value());
        }
        if tally_straight_flush(&t, Ghost(s), len) {
            let top = tally_straight_flush_top(&t, Ghost(s));
            proof {
                lemma_straight_flush_top(s);
            }
            if top == 14 {
                return HandRank::RoyalFlush;
            }
            return HandRank::StraightFlush(rank_from_index(top));
        }
        let fours = tally_with_count(&t, Ghost(s), 4);
        let threes = tally_with_count(&t, Ghost(s), 3);
        let pairs = tally_with_count(&t, Ghost(s), 2);
        let singles = tally_with_count(&t, Ghost(s), 1);
        if fours.len() >= 1 {
            let rank = fours[0];
            let x = rank_index(&rank);
            let rest = tally_desc(&t, Ghost(s), x);
            proof {
                lemma_other_present(s, x as int);
                let w = choose|w: int| 2 <= w <= 14 && w != x && #[trigger] present(s, w);
                lemma_desc_nonempty(s, 2, x as int, w);
            }
            return HandRank::FourOfAKind(rank, rest[0]);
        }
        if threes.len() >= 1 && (pairs.len() >= 1 || threes.len() >= 2) {
            let second = if threes.len() >= 2 && (pairs.len() == 0 || rank_index(&threes[1]) > rank_index(&pairs[0])) {
                threes[1]
            } else {
                pairs[0]
            };
            return HandRank::FullHouse(threes[0], second);
        }
        if tally_flush(&t, Ghost(s)) {
            let su = tally_flush_suit(&t, Ghost(s));
            let ranks = tally_suit_desc(&t, Ghost(s), su);
            proof {
                lemma_suit_card_present(s, su);
                let v = choose|v: int| 2 <= v <= 14 && #[trigger] suit_rank_count(s, su, v) > 0;
                lemma_suit_desc_nonempty(s, su, 2, v);
            }
            let high_card = ranks[0];
            let kickers = take_from(&ranks, 1, 4);
            assert(ranks@.subrange(1, ranks@.len() as int) =~= ranks@.drop_first());
            return HandRank::Flush(high_card, kickers);
        }
        if tally_straight(&t, Ghost(s)) {
            let top = tally_straight_top(&t, Ghost(s));
            proof {
                lemma_straight_top(s, 14);
            }
            return HandRank::Straight(rank_from_index(top));
        }
        if threes.len() >= 1 {
            let rank = threes[0];
            let rest = tally_desc(&t, Ghost(s), rank_index(&rank));
            let kickers = take_from(&rest, 0, 2);
            assert(rest@.subrange(0, rest@.len() as int) =~= rest@);
            return HandRank::ThreeOfAKind(rank, kickers);
        }
        if pairs.len() >= 2 {
            let kicker = if pairs.len() >= 3 && (singles.len() == 0 || rank_index(&pairs[2]) > rank_index(&singles[0])) {
                pairs[2]
            } else {
                singles[0]
            };
            return HandRank::TwoPair(pairs[0], pairs[1], kicker);
        }
        if pairs.len() == 1 {
            let kickers = take_from(&singles, 0, 3);
            assert(singles@.subrange(0, singles@.len() as int) =~= singles@);
            return HandRank::OnePair(pairs[0], kickers);
        }
        let sorted = tally_desc(&t, Ghost(s), 0);
        let kickers = take_from(&sorted, 1, 4);
        assert(sorted@.subrange(1, sorted@.len() as int) =~= sorted@.drop_first());
        HandRank::HighCard(sorted[0], kickers)
    }
}

} // verus!
