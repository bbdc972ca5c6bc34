use vstd::prelude::*;

use crate::card::Card;
use crate::game_type::GameType;

verus! {

// ---------------------------------------------------------------------------
// Numbers typed by a user
// ---------------------------------------------------------------------------

/// `c` is one of the digits `0` to `9`.
pub open spec fn is_digit(c: char) -> bool {
    '0' <= c && c <= '9'
}

/// The value of a text of digits, read in base ten.
pub open spec fn digits_value(s: Seq<char>) -> nat
    decreases s.len(),
{
    if s.len() == 0 {
        0
    } else {
        digits_value(s.drop_last()) * 10 + (s.last() as nat - 48) as nat
    }
}

/// The digits of a number's text: the text without a leading `+`.
pub open spec fn number_digits(s: Seq<char>) -> Seq<char> {
    if s.len() > 0 && s[0] == '+' {
        s.drop_first()
    } else {
        s
    }
}

/// The number a text stands for, as an unsigned integer type of largest value `max` reads
/// it: an optional `+` followed by one digit or more, of value at most `max`; `None` for
/// any other text.
pub open spec fn number_of(s: Seq<char>, max: nat) -> Option<nat> {
    let d = number_digits(s);
    if d.len() > 0 && (forall|i: int| 0 <= i < d.len() ==> is_digit(#[trigger] d[i])) && digits_value(d) <= max {
        Some(digits_value(d))
    } else {
        None
    }
}

/// A text of digits is worth at least what its first `k` digits are worth.
proof fn lemma_digits_prefix(s: Seq<char>, k: int)
    requires
        0 <= k <= s.len(),
        forall|i: int| 0 <= i < s.len() ==> is_digit(#[trigger] s[i]),
    ensures
        digits_value(s.subrange(0, k)) <= digits_value(s),
    decreases s.len() - k,
{
    if k < s.len() {
        lemma_digits_prefix(s, k + 1);
        assert(s.subrange(0, k + 1).drop_last() =~= s.subrange(0, k));
        assert(s.subrange(0, k + 1)[k] == s[k]);
    } else {
        assert(s.subrange(0, k) =~= s);
    }
}

/// Reads the number that `text` stands for (see `number_of`), as an unsigned integer type
/// of largest value `max` would.
pub fn parse_number(text: &Vec<char>, max: u64) -> (r: Option<u64>)
    ensures
        r matches Some(v) ==> number_of(text@, max as nat) == Some(v as nat),
        r is None ==> number_of(text@, max as nat) is None,
{
    let ghost d = number_digits(text@);
    let start: usize = if text.len() > 0 && text[0] == '+' { 1 } else { 0 };
    assert(d =~= text@.subrange(start as int, text@.len() as int));
    if start >= text.len() {
        return None;
    }
    let mut value: u64 = 0;
    let mut i: usize = start;
    assert(d.subrange(0, 0) =~= Seq::<char>::empty());
    while i < text.len()
        invariant
            start <= i <= text@.len(),
            start < text@.len(),
            d =~= text@.subrange(start as int, text@.len() as int),
            d == number_digits(text@),
            value as nat == digits_value(d.subrange(0, i - start)),
            value <= max,
            forall|j: int| 0 <= j < i - start ==> is_digit(#[trigger] d[j]),
        decreases text@.len() - i,
    {
        let c = text[i];
        let ghost k = i - start;
        assert(d[k] == text@[i as int]);
        if !('0' <= c && c <= '9') {
            assert(!is_digit(d[k]));
            assert(!(forall|j: int| 0 <= j < d.len() ==> is_digit(#[trigger] d[j])));
            return None;
        }
        assert(d.subrange(0, k + 1).drop_last() =~= d.subrange(0, k));
        assert(d.subrange(0, k + 1).last() == c);
        let digit: u64 = (c as u32 - 48) as u64;
        let next = match value.checked_mul(10) {
            Some(x) => x.checked_add(digit),
            None => None,
        };
        match next {
            Some(x) => {
                assert(x as nat == digits_value(d.subrange(0, k + 1)));
                if x > max {
                    proof {
                        if forall|j: int| 0 <= j < d.len() ==> is_digit(#[trigger] d[j]) {
                            lemma_digits_prefix(d, k + 1);
                        }
                    }
                    return None;
                }
                value = x;
            },
            None => {
                proof {
                    if forall|j: int| 0 <= j < d.len() ==> is_digit(#[trigger] d[j]) {
                        lemma_digits_prefix(d, k + 1);
                    }
                }
                return None;
            },
        }
        i = i + 1;
    }
    assert(d.subrange(0, d.len() as int) =~= d);
    Some(value)
}

// ---------------------------------------------------------------------------
// Answers to the questions of the command line
// ---------------------------------------------------------------------------

/// The position of an option chosen from a list of `count`: the typed index, when it is a
/// `usize` below `count`.
pub fn menu_choice(text: &Vec<char>, count: usize) -> (r: Option<usize>)
    ensures
        r matches Some(i) ==> number_of(text@, usize::MAX as nat) == Some(i as nat) && i < count,
        r is None ==> !(number_of(text@, usize::MAX as nat) matches Some(v) && v < count),
{
    match parse_number(text, usize::MAX as u64) {
        Some(v) => {
            if v < count as u64 {
                Some(v as usize)
            } else {
                None
            }
        },
        None => None,
    }
}

/// Why a typed amount is refused.
#[derive(Debug, Clone, Copy, PartialEq, Eq, Structural)]
pub enum AmountRefusal {
    /// The text is not a `u32`.
    NotANumber,
    /// The amount is zero.
    NotPositive,
    /// The amount is above the limit.
    AboveLimit,
}

/// A typed amount of at least 1 and at most `limit`, or why it is refused.
pub fn amount_answer(text: &Vec<char>, limit: u32) -> (r: Result<u32, AmountRefusal>)
    ensures
        number_of(text@, u32::MAX as nat) is None <==> r == Err::<u32, AmountRefusal>(AmountRefusal::NotANumber),
        number_of(text@, u32::MAX as nat) == Some(0nat) <==> r == Err::<u32, AmountRefusal>(AmountRefusal::NotPositive),
        (number_of(text@, u32::MAX as nat) matches Some(v) && v > 0 && v > limit) <==> r == Err::<u32, AmountRefusal>(
            AmountRefusal::AboveLimit,
        ),
        r matches Ok(v) ==> number_of(text@, u32::MAX as nat) == Some(v as nat) && 0 < v <= limit,
{
    match parse_number(text, u32::MAX as u64) {
        Some(v) => {
            if v == 0 {
                Err(AmountRefusal::NotPositive)
            } else if v > limit as u64 {
                Err(AmountRefusal::AboveLimit)
            } else {
                Ok(v as u32)
            }
        },
        None => Err(AmountRefusal::NotANumber),
    }
}

/// The poker variation typed as `1`, `2` or `3`.
pub fn variation_choice(text: &Vec<char>) -> (r: Option<GameType>)
    ensures
        number_of(text@, usize::MAX as nat) == Some(1nat) <==> r == Some(GameType::FiveCardDraw),
        number_of(text@, usize::MAX as nat) == Some(2nat) <==> r == Some(GameType::SevenCardStud),
        number_of(text@, usize::MAX as nat) == Some(3nat) <==> r == Some(GameType::TexasHoldem),
        r is None <==> !(number_of(text@, usize::MAX as nat) matches Some(v) && 1 <= v <= 3),
{
    match parse_number(text, usize::MAX as u64) {
        Some(1) => Some(GameType::FiveCardDraw),
        Some(2) => Some(GameType::SevenCardStud),
        Some(3) => Some(GameType::TexasHoldem),
        _ => None,
    }
}

/// An answer while choosing the cards to replace.
#[derive(Debug, Clone, Copy, PartialEq, Eq, Structural)]
pub enum ReplaceAnswer {
    /// The choice is finished.
    Finish,
    /// The card at this position is chosen, or no longer chosen.
    Toggle(usize),
    /// Neither: the answer is refused.
    Invalid,
}

/// Reads an answer while choosing among `n_cards` cards to replace: `x` finishes, the
/// position of one of the cards (as a `u32`) toggles it, anything else is refused.
pub fn replace_answer(text: &Vec<char>, n_cards: usize) -> (r: ReplaceAnswer)
    ensures
        text@ == seq!['x'] <==> r == ReplaceAnswer::Finish,
        r matches ReplaceAnswer::Toggle(i) ==> number_of(text@, u32::MAX as nat) == Some(i as nat) && i < n_cards,
        text@ != seq!['x'] ==> (number_of(text@, u32::MAX as nat) matches Some(v) ==> (v < n_cards ==> r
            == ReplaceAnswer::Toggle(v as usize))),
        r == ReplaceAnswer::Invalid <==> (text@ != seq!['x'] && !(number_of(text@, u32::MAX as nat) matches Some(v)
            && v < n_cards)),
{
    if text.len() == 1 && text[0] == 'x' {
        assert(text@ =~= seq!['x']);
        return ReplaceAnswer::Finish;
    }
    match parse_number(text, u32::MAX as u64) {
        Some(v) => {
            if v < n_cards as u64 {
                ReplaceAnswer::Toggle(v as usize)
            } else {
                ReplaceAnswer::Invalid
            }
        },
        None => ReplaceAnswer::Invalid,
    }
}

/// Marks the card at position `i` for replacement when it was not marked, and unmarks it
/// when it was.
pub fn toggle_selection(selected: &mut Vec<bool>, i: usize)
    requires
        i < old(selected)@.len(),
    ensures
        final(selected)@ == old(selected)@.update(i as int, !old(selected)@[i as int]),
{
    let was = selected[i];
    selected.set(i, !was);
}

/// The cards of `cards` whose position is marked in `selected`, in order.
pub open spec fn chosen_cards(cards: Seq<Card>, selected: Seq<bool>) -> Seq<Card>
    decreases cards.len(),
{
    if cards.len() == 0 {
        cards
    } else {
        let r = chosen_cards(cards.drop_last(), selected);
        if selected[cards.len() - 1] {
            r.push(cards.last())
        } else {
            r
        }
    }
}

/// The cards of `cards` whose position is marked in `selected`, in order.
pub fn selected_cards(cards: &Vec<Card>, selected: &Vec<bool>) -> (r: Vec<Card>)
    requires
        selected@.len() == cards@.len(),
    ensures
        r@ == chosen_cards(cards@, selected@),
{
    let mut r: Vec<Card> = Vec::new();
    let mut i: usize = 0;
    assert(cards@.subrange(0, 0) =~= Seq::<Card>::empty());
    while i < cards.len()
        invariant
            i <= cards@.len(),
            selected@.len() == cards@.len(),
            r@ == chosen_cards(cards@.subrange(0, i as int), selected@),
        decreases cards@.len() - i,
    {
        let ghost s = cards@.subrange(0, i + 1);
        assert(s.drop_last() =~= cards@.subrange(0, i as int));
        if selected[i] {
            r.push(cards[i]);
        }
        i = i + 1;
    }
    assert(cards@.subrange(0, cards@.len() as int) =~= cards@);
    r
}

} // verus!
