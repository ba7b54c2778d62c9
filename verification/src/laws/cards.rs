//! Laws of cards, suits and their order.

use crate::counts::{ascending, lemma_ascending};
use crate::order::{card_order, sorted_cards, sorted_cards_are_sorted};
use crate::types::{
    order_of, successors_are_the_next_tier, Card, EffectiveSuit, Number, Suit, Trump,
};
use std::cmp::Ordering;
use vstd::multiset::Multiset;
use vstd::prelude::*;
use vstd::relations::sorted_by;

verus! {

/// `card` has the number `number`.
pub open spec fn has_number(card: Card, number: Number) -> bool {
    card matches Card::Suited { number: n, .. } && n == number
}

/// `card` has the printed suit `suit`.
pub open spec fn has_suit(card: Card, suit: Suit) -> bool {
    card matches Card::Suited { suit: s, .. } && s == suit
}

/// `card` has the number of the trump.
pub open spec fn has_trump_number(t: Trump, card: Card) -> bool {
    match t {
        Trump::Standard { number, .. } => has_number(card, number),
        Trump::NoTrump { number } => has_number(card, number),
    }
}

/// `card` has the printed suit of the trump, where there is one.
pub open spec fn has_printed_trump_suit(t: Trump, card: Card) -> bool {
    t matches Trump::Standard { suit, .. } && has_suit(card, suit)
}

/// Fives score five, tens and kings ten, and nothing else scores.
pub proof fn which_cards_score(c: Card)
    ensures
        c.worth() == Some(5nat) <==> has_number(c, Number::Five),
        c.worth() == Some(10nat) <==> has_number(c, Number::Ten) || has_number(c, Number::King),
        c.worth() is Some <==> has_number(c, Number::Five) || has_number(c, Number::Ten)
            || has_number(c, Number::King),
{
}

/// The trumps are the jokers, the cards of the trump number and those of the trump suit. All
/// others belong to the suit that is printed on them.
pub proof fn which_cards_are_trump(t: Trump, c: Card)
    ensures
        t.suit_of(c) == EffectiveSuit::Trump <==> c == Card::SmallJoker || c == Card::BigJoker
            || has_trump_number(t, c) || has_printed_trump_suit(t, c),
        t.suit_of(c) == EffectiveSuit::Clubs ==> has_suit(c, Suit::Clubs),
        t.suit_of(c) == EffectiveSuit::Diamonds ==> has_suit(c, Suit::Diamonds),
        t.suit_of(c) == EffectiveSuit::Spades ==> has_suit(c, Suit::Spades),
        t.suit_of(c) == EffectiveSuit::Hearts ==> has_suit(c, Suit::Hearts),
{
}

/// Numbers ascend from two to ace, and suits from clubs over diamonds and spades to hearts.
pub proof fn numbers_and_suits_ascend()
    ensures
        Number::Two.position() < Number::Three.position() < Number::Four.position()
            < Number::Five.position() < Number::Six.position() < Number::Seven.position(),
        Number::Seven.position() < Number::Eight.position() < Number::Nine.position()
            < Number::Ten.position() < Number::Jack.position() < Number::Queen.position(),
        Number::Queen.position() < Number::King.position() < Number::Ace.position(),
        Suit::Clubs.position() < Suit::Diamonds.position() < Suit::Spades.position()
            < Suit::Hearts.position(),
        EffectiveSuit::Clubs.position() < EffectiveSuit::Diamonds.position()
            < EffectiveSuit::Spades.position() < EffectiveSuit::Hearts.position()
            < EffectiveSuit::Trump.position(),
{
}

/// Between effective suits the suit decides, and trump is the strongest.
pub proof fn suits_decide_first(t: Trump, a: Card, b: Card)
    requires
        t.suit_of(a).position() < t.suit_of(b).position(),
    ensures
        t.strength(a) < t.strength(b),
        t.rank(a) < t.rank(b),
        t.suit_of(a) != EffectiveSuit::Trump,
{
    assert(0 <= t.tier(a) <= 15 && 0 <= t.tier(b) <= 15) by {
        lemma_tier(t, a);
        lemma_tier(t, b);
    }
}

proof fn lemma_tier(t: Trump, c: Card)
    ensures
        0 <= t.tier(c) <= 15,
        (c is Suited && !has_trump_number(t, c)) ==> t.tier(c) <= 11,
{
    if let Card::Suited { number, .. } = c {
        let other = t.trump_number();
        assert(0 <= number.position() <= 12 && 0 <= other.position() <= 12);
    }
}

/// Within an effective suit: the big joker is above the small one, that above the card of the
/// trump number in the trump suit, that above the other cards of the trump number, which are
/// equally strong, and those above everything else, where the number decides.
pub proof fn strength_within_a_suit(t: Trump, a: Card, b: Card)
    requires
        t.suit_of(a) == t.suit_of(b),
    ensures
        a == Card::BigJoker && b != Card::BigJoker ==> t.strength(a) > t.strength(b),
        a == Card::SmallJoker && b is Suited ==> t.strength(a) > t.strength(b),
        has_trump_number(t, a) && has_printed_trump_suit(t, a) && b is Suited && a != b
            ==> t.strength(a) > t.strength(b),
        has_trump_number(t, a) && b is Suited && !has_trump_number(t, b) ==> t.strength(a)
            > t.strength(b),
        has_trump_number(t, a) && has_trump_number(t, b) && !has_printed_trump_suit(t, a)
            && !has_printed_trump_suit(t, b) ==> t.strength(a) == t.strength(b),
        match (a, b) {
            (Card::Suited { number: x, .. }, Card::Suited { number: y, .. }) => !has_trump_number(
                t,
                a,
            ) && !has_trump_number(t, b) ==> (t.strength(a) > t.strength(b) <==> x.position()
                > y.position()),
            _ => true,
        },
{
    lemma_tier(t, a);
    lemma_tier(t, b);
}

/// The order of all cards goes by strength. Different cards that are equally strong are those of
/// the trump number outside the trump suit, and they go by their printed suits.
pub proof fn rank_goes_by_strength(t: Trump, a: Card, b: Card)
    ensures
        t.strength(a) < t.strength(b) ==> t.rank(a) < t.rank(b),
        t.strength(a) == t.strength(b) && a != b ==> has_trump_number(t, a) && has_trump_number(
            t,
            b,
        ) && !has_printed_trump_suit(t, a) && !has_printed_trump_suit(t, b),
        match (a, b) {
            (Card::Suited { suit: x, .. }, Card::Suited { suit: y, .. }) => t.strength(a)
                == t.strength(b) && a != b ==> (t.rank(a) < t.rank(b) <==> x.position()
                < y.position()),
            _ => true,
        },
{
    lemma_tier(t, a);
    lemma_tier(t, b);
    let n = t.trump_number();
    assert(0 <= n.position() <= 12);
    if t.strength(a) == t.strength(b) && a != b {
        assert(t.suit_of(a) == t.suit_of(b));
        lemma_same_tier(t, a, b);
    }
}

proof fn lemma_same_tier(t: Trump, a: Card, b: Card)
    requires
        t.suit_of(a) == t.suit_of(b),
        t.tier(a) == t.tier(b),
        a != b,
    ensures
        t.tier(a) == 12,
        has_trump_number(t, a),
        has_trump_number(t, b),
        !has_printed_trump_suit(t, a),
        !has_printed_trump_suit(t, b),
{
    let n = t.trump_number();
    assert(0 <= n.position() <= 12);
    match (a, b) {
        (Card::Suited { number: x, suit: p }, Card::Suited { number: y, suit: q }) => {
            assert(0 <= x.position() <= 12 && 0 <= y.position() <= 12);
            assert(x.position() == y.position() ==> x == y);
            assert(x.position() == n.position() ==> x == n);
            assert(y.position() == n.position() ==> y == n);
            if x != n && y != n {
                assert(x == y);
                assert(p.plain() == q.plain() ==> p == q);
            }
        },
        _ => {
            lemma_tier(t, a);
            lemma_tier(t, b);
        },
    }
}

/// The successors of a card are the next stronger cards of its suit: stronger, with none between.
pub proof fn successors_are_next_in_strength(t: Trump, card: Card, d: Card)
    ensures
        t.successors(card).contains(d) <==> {
            &&& t.suit_of(d) == t.suit_of(card)
            &&& t.strength(d) > t.strength(card)
            &&& forall|e: Card|
                !(t.suit_of(e) == t.suit_of(card) && t.strength(card) < #[trigger] t.strength(e)
                    < t.strength(d))
        },
{
    successors_are_the_next_tier(t, card);
    if t.suit_of(d) == t.suit_of(card) && t.tier(d) > t.tier(card) + 1 {
        lemma_has_successor(t, card, d);
        let e = t.successors(card)[0];
        assert(t.successors(card).contains(e));
        assert(t.strength(card) < t.strength(e) < t.strength(d));
    }
}

proof fn lemma_has_successor(t: Trump, card: Card, d: Card)
    requires
        t.suit_of(d) == t.suit_of(card),
        t.tier(d) > t.tier(card),
    ensures
        t.successors(card).len() > 0,
{
    let n = t.trump_number();
    assert(0 <= n.position() <= 12);
    if let Card::Suited { number: x, suit } = card {
        assert(0 <= x.position() <= 12);
        if let Card::Suited { number: y, suit: other } = d {
            assert(0 <= y.position() <= 12);
            assert(x.position() == n.position() ==> x == n);
            assert(y.position() == n.position() ==> y == n);
            assert(suit.plain() == other.plain() ==> suit == other);
        }
    }
}

/// Comparing says which of two numbers is less.
pub proof fn comparing_numbers(a: int, b: int)
    ensures
        order_of(a, b) == Ordering::Less <==> a < b,
        order_of(a, b) == Ordering::Equal <==> a == b,
        order_of(a, b) == Ordering::Greater <==> a > b,
{
}

/// The cards in ascending order are all the cards there are, each once, the lower before the
/// higher.
pub proof fn ascending_cards(t: Trump, m: Multiset<Card>)
    ensures
        forall|c: Card| #[trigger] ascending(t, m).contains(c) <==> m.count(c) > 0,
        forall|i: int, j: int|
            0 <= i < j < ascending(t, m).len() ==> t.rank(#[trigger] ascending(t, m)[i]) < t.rank(
                #[trigger] ascending(t, m)[j],
            ),
{
    lemma_ascending(t, m);
}

/// Sorted cards are the same cards, the lower before the higher.
pub proof fn sorting_cards(t: Trump, cards: Seq<Card>)
    ensures
        sorted_cards(t, cards).to_multiset() == cards.to_multiset(),
        sorted_cards(t, cards).len() == cards.len(),
        forall|i: int, j: int|
            0 <= i < j < sorted_cards(t, cards).len() ==> t.rank(
                #[trigger] sorted_cards(t, cards)[i],
            ) <= t.rank(#[trigger] sorted_cards(t, cards)[j]),
{
    broadcast use vstd::seq_lib::group_to_multiset_ensures;

    let sorted = sorted_cards(t, cards);
    sorted_cards_are_sorted(t, cards, sorted);
    assert(sorted.len() == sorted.to_multiset().len());
    assert(cards.len() == cards.to_multiset().len());
    assert forall|i: int, j: int| 0 <= i < j < sorted.len() implies t.rank(#[trigger] sorted[i])
        <= t.rank(#[trigger] sorted[j]) by {
        assert(sorted_by(sorted, card_order(t)));
        assert(card_order(t)(sorted[i], sorted[j]));
    }
}

} // verus!
