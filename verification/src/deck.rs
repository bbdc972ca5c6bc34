use vstd::prelude::*;
use rand::seq::IteratorRandom;

use crate::card::{Card, CardView, Rank, Suit, rank_of_value, suit_of_index, same_card};

verus! {

broadcast use vstd::seq_lib::group_to_multiset_ensures;

/// No two cards of `s` are the same card.
pub open spec fn distinct_cards(s: Seq<Card>) -> bool {
    forall|i: int, j: int| 0 <= i < j < s.len() ==> !same_card(#[trigger] s[i]@, #[trigger] s[j]@)
}

/// Some card of `s` is the same card as `c`.
pub open spec fn holds_card(s: Seq<Card>, c: CardView) -> bool {
    exists|i: int| 0 <= i < s.len() && same_card(#[trigger] s[i]@, c)
}

/// How many cards of `s` are the card of rank `r` and suit `su`.
pub open spec fn count_card(s: Seq<Card>, r: Rank, su: Suit) -> nat
    decreases s.len(),
{
    if s.len() == 0 {
        0
    } else {
        count_card(s.drop_last(), r, su) + (if s.last()@.rank == r && s.last()@.suit == su { 1nat } else { 0nat })
    }
}

/// 1 when `c` is the card of rank `r` and suit `su`, else 0.
pub open spec fn is_card(c: Card, r: Rank, su: Suit) -> nat {
    if c@.rank == r && c@.suit == su {
        1
    } else {
        0
    }
}

/// Adding a card counts it once more.
pub proof fn lemma_count_push(s: Seq<Card>, c: Card)
    ensures
        forall|r: Rank, su: Suit| #[trigger] count_card(s.push(c), r, su) == count_card(s, r, su) + is_card(c, r, su),
{
    assert(s.push(c).drop_last() =~= s);
}

/// Counts add up over a concatenation.
pub proof fn lemma_count_concat(a: Seq<Card>, b: Seq<Card>)
    ensures
        forall|r: Rank, su: Suit| #[trigger] count_card(a + b, r, su) == count_card(a, r, su) + count_card(b, r, su),
    decreases b.len(),
{
    if b.len() == 0 {
        assert(a + b =~= a);
    } else {
        lemma_count_concat(a, b.drop_last());
        let ab = a + b;
        assert(ab.drop_last() =~= a + b.drop_last());
        assert(ab.last() == b.last());
        assert forall|r: Rank, su: Suit| #[trigger] count_card(a + b, r, su) == count_card(a, r, su) + count_card(b, r, su) by {
            assert(count_card(ab, r, su) == count_card(ab.drop_last(), r, su) + is_card(ab.last(), r, su));
            assert(count_card(b, r, su) == count_card(b.drop_last(), r, su) + is_card(b.last(), r, su));
            assert(count_card(a + b.drop_last(), r, su) == count_card(a, r, su) + count_card(b.drop_last(), r, su));
        }
    }
}

/// Changing one card changes the counts by the cards swapped.
pub proof fn lemma_count_update(s: Seq<Card>, i: int, c: Card)
    requires
        0 <= i < s.len(),
    ensures
        forall|r: Rank, su: Suit| #[trigger] count_card(s.update(i, c), r, su) + is_card(s[i], r, su)
            == count_card(s, r, su) + is_card(c, r, su),
    decreases s.len(),
{
    let u = s.update(i, c);
    if i < s.len() - 1 {
        lemma_count_update(s.drop_last(), i, c);
        assert(u.drop_last() =~= s.drop_last().update(i, c));
        assert(u.last() == s.last());
        assert(s.drop_last()[i] == s[i]);
        assert forall|r: Rank, su: Suit| #[trigger] count_card(s.update(i, c), r, su) + is_card(s[i], r, su)
            == count_card(s, r, su) + is_card(c, r, su) by {
            assert(count_card(u, r, su) == count_card(u.drop_last(), r, su) + is_card(u.last(), r, su));
            assert(count_card(s, r, su) == count_card(s.drop_last(), r, su) + is_card(s.last(), r, su));
            assert(count_card(s.drop_last().update(i, c), r, su) + is_card(s.drop_last()[i], r, su)
                == count_card(s.drop_last(), r, su) + is_card(c, r, su));
        }
    } else {
        assert(u.drop_last() =~= s.drop_last());
        assert(u.last() == c);
        assert(s[i] == s.last());
        assert forall|r: Rank, su: Suit| #[trigger] count_card(s.update(i, c), r, su) + is_card(s[i], r, su)
            == count_card(s, r, su) + is_card(c, r, su) by {
            assert(count_card(u, r, su) == count_card(u.drop_last(), r, su) + is_card(u.last(), r, su));
            assert(count_card(s, r, su) == count_card(s.drop_last(), r, su) + is_card(s.last(), r, su));
        }
    }
}

/// Dealing a card leaves every other card's count, and takes the dealt card's count down
/// by one.
pub proof fn lemma_count_dealt(s: Seq<Card>, c: Card, t: Seq<Card>)
    requires
        dealt_from(s, c, t),
    ensures
        forall|r: Rank, su: Suit| #[trigger] count_card(t, r, su) + is_card(c, r, su) == count_card(s, r, su),
{
    let i = choose|i: int| 0 <= i < s.len() && #[trigger] s[i] == c && t == s.update(i, s.last()).drop_last();
    let u = s.update(i, s.last());
    lemma_count_update(s, i, s.last());
    assert(u.drop_last() == t);
    assert(u.last() == s.last()) by {
        if i == s.len() - 1 {
            assert(u[s.len() - 1] == s.last());
        } else {
            assert(u[s.len() - 1] == s[s.len() - 1]);
        }
    }
    assert forall|r: Rank, su: Suit| #[trigger] count_card(t, r, su) + is_card(c, r, su) == count_card(s, r, su) by {
        assert(count_card(u, r, su) == count_card(u.drop_last(), r, su) + is_card(u.last(), r, su));
        assert(count_card(u, r, su) + is_card(s[i], r, su) == count_card(s, r, su) + is_card(s.last(), r, su));
    }
}

/// A sequence holds a card exactly when it counts it.
pub proof fn lemma_holds_count(s: Seq<Card>, c: CardView)
    ensures
        holds_card(s, c) <==> count_card(s, c.rank, c.suit) > 0,
    decreases s.len(),
{
    if s.len() > 0 {
        lemma_holds_count(s.drop_last(), c);
        if holds_card(s, c) {
            let i = choose|i: int| 0 <= i < s.len() && same_card(#[trigger] s[i]@, c);
            if i < s.len() - 1 {
                assert(s.drop_last()[i] == s[i]);
            }
        }
        if holds_card(s.drop_last(), c) {
            let i = choose|i: int| 0 <= i < s.drop_last().len() && same_card(#[trigger] s.drop_last()[i]@, c);
            assert(s[i] == s.drop_last()[i]);
        }
        if s.last()@.rank == c.rank && s.last()@.suit == c.suit {
            assert(same_card(s[s.len() - 1]@, c));
        }
    }
}

/// Sequences holding the same cards position by position (face up or not) count the same.
pub proof fn lemma_count_same_cards(a: Seq<Card>, b: Seq<Card>)
    requires
        a.len() == b.len(),
        forall|i: int| 0 <= i < a.len() ==> same_card(#[trigger] a[i]@, b[i]@),
    ensures
        forall|r: Rank, su: Suit| #[trigger] count_card(a, r, su) == count_card(b, r, su),
    decreases a.len(),
{
    if a.len() > 0 {
        assert forall|i: int| 0 <= i < a.drop_last().len() implies same_card(#[trigger] a.drop_last()[i]@, b.drop_last()[i]@) by {
            assert(a.drop_last()[i] == a[i] && b.drop_last()[i] == b[i]);
        }
        lemma_count_same_cards(a.drop_last(), b.drop_last());
        assert(same_card(a[a.len() - 1]@, b[b.len() - 1]@));
        assert forall|r: Rank, su: Suit| #[trigger] count_card(a, r, su) == count_card(b, r, su) by {
            assert(count_card(a, r, su) == count_card(a.drop_last(), r, su) + is_card(a.last(), r, su));
            assert(count_card(b, r, su) == count_card(b.drop_last(), r, su) + is_card(b.last(), r, su));
        }
    }
}

/// Reversing keeps the counts.
pub proof fn lemma_count_reverse(s: Seq<Card>)
    ensures
        forall|r: Rank, su: Suit| #[trigger] count_card(s.reverse(), r, su) == count_card(s, r, su),
    decreases s.len(),
{
    if s.len() > 0 {
        let q = s.drop_last();
        lemma_count_reverse(q);
        assert(s.reverse() =~= seq![s.last()] + q.reverse());
        lemma_count_concat(seq![s.last()], q.reverse());
        assert(seq![s.last()] =~= Seq::<Card>::empty().push(s.last()));
        lemma_count_push(Seq::<Card>::empty(), s.last());
    }
}

/// The card at position `k` of a new deck: ranks Two to Ace, each in the suits
/// Clubs, Spades, Hearts and Diamonds, all face down.
pub open spec fn new_deck_card(k: int) -> CardView {
    CardView { rank: rank_of_value(2 + k / 4), suit: suit_of_index(k % 4), face_up: false }
}

/// `t` is what is left of `s` after dealing `c`: the card at some position of `s` is taken,
/// and the last card of `s` moves into its place.
pub open spec fn dealt_from(s: Seq<Card>, c: Card, t: Seq<Card>) -> bool {
    exists|i: int| 0 <= i < s.len() && #[trigger] s[i] == c && t == s.update(i, s.last()).drop_last()
}

/// Picks an index in `0..len` at random: `IteratorRandom::choose` over the range `0..len`,
/// with the thread-local generator `rand::rng()`. For a range of known length the source
/// returns `None` when it is empty and otherwise `Some` of an element of the range; which
/// element is left open.
#[verifier::external_body]
fn choose_index(len: usize) -> (r: Option<usize>)
    ensures
        r is None <==> len == 0,
        r matches Some(i) ==> i < len,
{
    let mut rng = rand::rng();
    (0..len).choose(&mut rng)
}

/// Deck class, a normal deck of 52 cards without jokers.
/// Cards are dealt at random, and must later be returned to the deck.
#[derive(Debug)]
pub struct Deck {
    cards: Vec<Card>,
}

impl View for Deck {
    type V = Seq<Card>;

    closed spec fn view(&self) -> Seq<Card> {
        self.cards@
    }
}

impl Deck {
    /// Constructor for Deck: all 52 cards, face down.
    pub fn new() -> (deck: Deck)
        ensures
            deck@.len() == 52,
            forall|k: int| 0 <= k < 52 ==> (#[trigger] deck@[k])@ == new_deck_card(k),
    {
        let mut cards: Vec<Card> = Vec::new();
        let mut v: u8 = 2;
        while v <= 14
            invariant
                2 <= v <= 15,
                cards@.len() == (v - 2) * 4,
                forall|k: int| 0 <= k < cards@.len() ==> (#[trigger] cards@[k])@ == new_deck_card(k),
            decreases 15 - v,
        {
            let rank = Rank::to_rank(v);
            let mut s: usize = 0;
            while s < 4
                invariant
                    2 <= v <= 14,
                    s <= 4,
                    rank == rank_of_value(v as int),
                    cards@.len() == (v - 2) * 4 + s,
                    forall|k: int| 0 <= k < cards@.len() ==> (#[trigger] cards@[k])@ == new_deck_card(k),
                decreases 4 - s,
            {
                let suit = Suit::from_index(s);
                let ghost k = cards@.len() as int;
                cards.push(Card::new(rank, suit, false));
                assert(k / 4 == v - 2 && k % 4 == s) by (nonlinear_arith)
                    requires
                        k == (v - 2) * 4 + s,
                        s < 4,
                ;
                s = s + 1;
            }
            v = v + 1;
        }
        Deck { cards }
    }

    /// Number of cards in the deck.
    pub fn size(&self) -> (n: usize)
        ensures
            n == self@.len(),
    {
        self.cards.len()
    }

    /// true if the deck holds the same card (rank and suit) as `card`.
    pub fn contains(&self, card: &Card) -> (r: bool)
        ensures
            r == holds_card(self@, card@),
    {
        let mut i: usize = 0;
        while i < self.cards.len()
            invariant
                i <= self.cards@.len(),
                forall|j: int| 0 <= j < i ==> !same_card(#[trigger] self.cards@[j]@, card@),
            decreases self.cards@.len() - i,
        {
            if self.cards[i].same_as(card) {
                assert(same_card(self.cards@[i as int]@, card@));
                return true;
            }
            i = i + 1;
        }
        false
    }

    /// Deals a card from the deck at random.
    /// Err(String) if the deck no longer contains any cards,
    /// otherwise Ok(Card), and the card leaves the deck.
    pub fn deal(&mut self) -> (r: Result<Card, String>)
        ensures
            old(self)@.len() == 0 ==> r is Err && r->Err_0@
                == "There are no cards remaining in the deck, so no card can be dealt"@
                && final(self)@ == old(self)@,
            old(self)@.len() > 0 ==> (r matches Ok(c) && dealt_from(old(self)@, c, final(self)@)),
    {
        if self.cards.len() == 0 {
            return Err("There are no cards remaining in the deck, so no card can be dealt".to_owned());
        }
        match choose_index(self.cards.len()) {
            Some(index) => {
                let ghost before = self.cards@;
                let card = self.cards.swap_remove(index);
                assert(before[index as int] == card);
                Ok(card)
            },
            None => {
                assert(false);
                Err("There are no cards remaining in the deck, so no card can be dealt".to_owned())
            },
        }
    }

    /// Takes the card of the rank and suit of `card` out of the deck, for the dealer to hand
    /// it out. Err(String) if the deck does not hold that card; then nothing changes.
    pub fn take_card(&mut self, card: &Card) -> (r: Result<Card, String>)
        ensures
            r is Ok <==> holds_card(old(self)@, card@),
            r is Err ==> final(self)@ == old(self)@,
            r matches Ok(c) ==> dealt_from(old(self)@, c, final(self)@) && same_card(c@, card@),
    {
        let mut i: usize = 0;
        while i < self.cards.len()
            invariant
                i <= self.cards@.len(),
                self.cards@ == old(self)@,
                forall|j: int| 0 <= j < i ==> !same_card(#[trigger] self.cards@[j]@, card@),
            decreases self.cards@.len() - i,
        {
            if self.cards[i].same_as(card) {
                let ghost before = self.cards@;
                let taken = self.cards.swap_remove(i);
                assert(before[i as int] == taken);
                return Ok(taken);
            }
            i = i + 1;
        }
        Err("The deck does not hold this card".to_owned())
    }

    /// Return a card to the deck so that it can be dealt again.
    /// The card must not already be in the deck.
    pub fn return_card(&mut self, card: Card)
        requires
            !holds_card(old(self)@, card@),
        ensures
            final(self)@ == old(self)@.push(card),
    {
        self.cards.push(card);
    }
}

/// Where a new deck holds the card of rank `r` and suit `su`.
pub open spec fn new_deck_index(r: Rank, su: Suit) -> int {
    (r.value() - 2) * 4 + su.index()
}

/// A new deck holds every rank in every suit, and no card twice.
pub proof fn lemma_new_deck_complete()
    ensures
        forall|r: Rank, su: Suit|
            0 <= #[trigger] new_deck_index(r, su) < 52 && new_deck_card(new_deck_index(r, su))
                == (CardView { rank: r, suit: su, face_up: false }),
        forall|k1: int, k2: int|
            0 <= k1 < k2 < 52 ==> !same_card(#[trigger] new_deck_card(k1), #[trigger] new_deck_card(k2)),
{
    assert forall|r: Rank, su: Suit|
        0 <= #[trigger] new_deck_index(r, su) < 52 && new_deck_card(new_deck_index(r, su))
            == (CardView { rank: r, suit: su, face_up: false }) by {
        let k = new_deck_index(r, su);
        crate::card::lemma_rank_value(r, r);
        assert(k / 4 == r.value() - 2 && k % 4 == su.index()) by (nonlinear_arith)
            requires
                k == (r.value() - 2) * 4 + su.index(),
                0 <= su.index() < 4,
        ;
        assert(new_deck_card(k) == (CardView { rank: r, suit: su, face_up: false }));
    }
    assert forall|k1: int, k2: int|
        0 <= k1 < k2 < 52 implies !same_card(#[trigger] new_deck_card(k1), #[trigger] new_deck_card(k2)) by {
        if k1 / 4 == k2 / 4 {
            assert(k1 % 4 != k2 % 4) by (nonlinear_arith)
                requires
                    k1 / 4 == k2 / 4,
                    0 <= k1 < k2,
            ;
        }
    }
}

/// A new deck counts every card once.
pub proof fn lemma_new_deck_counts(d: Seq<Card>)
    requires
        d.len() == 52,
        forall|k: int| 0 <= k < 52 ==> (#[trigger] d[k])@ == new_deck_card(k),
    ensures
        forall|r: Rank, su: Suit| #[trigger] count_card(d, r, su) == 1,
{
    lemma_new_deck_complete();
    assert forall|r: Rank, su: Suit| #[trigger] count_card(d, r, su) == 1 by {
        let k = new_deck_index(r, su);
        lemma_count_once(d, k, r, su);
    }
}

/// A sequence in which only position `k` holds the card counts it once.
proof fn lemma_count_once(d: Seq<Card>, k: int, r: Rank, su: Suit)
    requires
        0 <= k < d.len(),
        d[k]@.rank == r && d[k]@.suit == su,
        forall|j: int| 0 <= j < d.len() && j != k ==> !(#[trigger] d[j]@.rank == r && d[j]@.suit == su),
    ensures
        count_card(d, r, su) == 1,
    decreases d.len(),
{
    if d.len() - 1 == k {
        lemma_count_none(d.drop_last(), r, su);
    } else {
        assert forall|j: int| 0 <= j < d.drop_last().len() && j != k implies !(#[trigger] d.drop_last()[j]@.rank == r
            && d.drop_last()[j]@.suit == su) by {
            assert(d.drop_last()[j] == d[j]);
        }
        assert(d.drop_last()[k] == d[k]);
        lemma_count_once(d.drop_last(), k, r, su);
        assert(d[d.len() - 1] == d.last());
    }
}

/// A sequence without the card counts it zero times.
proof fn lemma_count_none(d: Seq<Card>, r: Rank, su: Suit)
    requires
        forall|j: int| 0 <= j < d.len() ==> !(#[trigger] d[j]@.rank == r && d[j]@.suit == su),
    ensures
        count_card(d, r, su) == 0,
    decreases d.len(),
{
    if d.len() > 0 {
        assert forall|j: int| 0 <= j < d.drop_last().len() implies !(#[trigger] d.drop_last()[j]@.rank == r
            && d.drop_last()[j]@.suit == su) by {
            assert(d.drop_last()[j] == d[j]);
        }
        lemma_count_none(d.drop_last(), r, su);
        assert(d[d.len() - 1] == d.last());
    }
}

/// Dealing a card and returning it leaves the deck holding the same cards as before;
/// dealing keeps the cards of a deck distinct.
pub proof fn lemma_deal_then_return(s: Seq<Card>, c: Card, t: Seq<Card>)
    requires
        dealt_from(s, c, t),
    ensures
        t.push(c).to_multiset() == s.to_multiset(),
        t.len() == s.len() - 1,
        distinct_cards(s) ==> distinct_cards(t) && !holds_card(t, c@),
{
    broadcast use vstd::multiset::group_multiset_axioms;

    let i = choose|i: int| 0 <= i < s.len() && #[trigger] s[i] == c && t == s.update(i, s.last()).drop_last();
    let n = s.len() - 1;
    if i == n {
        assert(t =~= s.drop_last());
        assert(t.push(c) =~= s);
    } else {
        let u = s.update(i, s.last());
        assert(u.to_multiset() == s.to_multiset().insert(s.last()).remove(s[i])) by {
            vstd::seq_lib::to_multiset_update(s, i, s.last());
        }
        assert(u.remove(n) =~= t);
        assert(t.to_multiset() == u.to_multiset().remove(u[n]));
        assert(t.push(c).to_multiset() =~= s.to_multiset());
    }
    if distinct_cards(s) {
        assert forall|a: int, b: int| 0 <= a < b < t.len() implies !same_card(#[trigger] t[a]@, #[trigger] t[b]@) by {
            let sa = if a == i { n } else { a };
            let sb = if b == i { n } else { b };
            assert(t[a] == s[sa]);
            assert(t[b] == s[sb]);
        }
        if holds_card(t, c@) {
            let a = choose|a: int| 0 <= a < t.len() && same_card(#[trigger] t[a]@, c@);
            let sa = if a == i { n } else { a };
            assert(t[a] == s[sa]);
        }
    }
}

} // verus!
