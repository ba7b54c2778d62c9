//! Cards, suits, and the order that a trump declaration puts on them.

use std::cmp::Ordering;
use vstd::prelude::*;

verus! {

/// The four suits, from lowest to highest where an order is needed.
#[derive(Clone, Copy, Debug, PartialEq, Eq, PartialOrd, Ord, Hash, Structural)]
pub enum Suit {
    Clubs,
    Diamonds,
    Spades,
    Hearts,
}

/// The thirteen numbers of a suit.
#[derive(Clone, Copy, Debug, PartialEq, Eq, PartialOrd, Ord, Hash, Structural)]
pub enum Number {
    Two,
    Three,
    Four,
    Five,
    Six,
    Seven,
    Eight,
    Nine,
    Ten,
    Jack,
    Queen,
    King,
    Ace,
}

#[derive(Clone, Copy, Debug, PartialEq, Eq, Hash, Structural)]
pub enum Card {
    Suited { suit: Suit, number: Number },
    SmallJoker,
    BigJoker,
}

/// The suit a card counts as once the trump is known: trump cards form a suit of their own.
#[derive(Clone, Copy, Debug, PartialEq, Eq, PartialOrd, Ord, Hash, Structural)]
pub enum EffectiveSuit {
    Clubs,
    Diamonds,
    Spades,
    Hearts,
    Trump,
}

/// Jokers and cards of the trump number are always trump; with `Standard`, so is one suit.
#[derive(Clone, Copy, Debug, PartialEq, Eq, Hash, Structural)]
pub enum Trump {
    Standard { number: Number, suit: Suit },
    NoTrump { number: Number },
}

#[derive(Clone, Copy, Debug, PartialEq, Eq, PartialOrd, Ord, Hash, Structural)]
pub struct PlayerID(pub usize);

impl Suit {
    /// Position of the suit, from 0.
    pub open spec fn position(self) -> int {
        match self {
            Suit::Clubs => 0,
            Suit::Diamonds => 1,
            Suit::Spades => 2,
            Suit::Hearts => 3,
        }
    }

    pub open spec fn plain(self) -> EffectiveSuit {
        match self {
            Suit::Clubs => EffectiveSuit::Clubs,
            Suit::Diamonds => EffectiveSuit::Diamonds,
            Suit::Spades => EffectiveSuit::Spades,
            Suit::Hearts => EffectiveSuit::Hearts,
        }
    }

    fn index(self) -> (r: u32)
        ensures
            r == self.position(),
    {
        match self {
            Suit::Clubs => 0,
            Suit::Diamonds => 1,
            Suit::Spades => 2,
            Suit::Hearts => 3,
        }
    }
}

impl EffectiveSuit {
    /// Position of the suit, from 0; trump is the highest.
    pub open spec fn position(self) -> int {
        match self {
            EffectiveSuit::Clubs => 0,
            EffectiveSuit::Diamonds => 1,
            EffectiveSuit::Spades => 2,
            EffectiveSuit::Hearts => 3,
            EffectiveSuit::Trump => 4,
        }
    }

    fn index(self) -> (r: u32)
        ensures
            r == self.position(),
    {
        match self {
            EffectiveSuit::Clubs => 0,
            EffectiveSuit::Diamonds => 1,
            EffectiveSuit::Spades => 2,
            EffectiveSuit::Hearts => 3,
            EffectiveSuit::Trump => 4,
        }
    }
}

impl Number {
    /// Position of the number, from 0 for `Two` to 12 for `Ace`.
    pub open spec fn position(self) -> int {
        match self {
            Number::Two => 0,
            Number::Three => 1,
            Number::Four => 2,
            Number::Five => 3,
            Number::Six => 4,
            Number::Seven => 5,
            Number::Eight => 6,
            Number::Nine => 7,
            Number::Ten => 8,
            Number::Jack => 9,
            Number::Queen => 10,
            Number::King => 11,
            Number::Ace => 12,
        }
    }

    fn index(self) -> (r: u32)
        ensures
            r == self.position(),
    {
        match self {
            Number::Two => 0,
            Number::Three => 1,
            Number::Four => 2,
            Number::Five => 3,
            Number::Six => 4,
            Number::Seven => 5,
            Number::Eight => 6,
            Number::Nine => 7,
            Number::Ten => 8,
            Number::Jack => 9,
            Number::Queen => 10,
            Number::King => 11,
            Number::Ace => 12,
        }
    }

    /// The number one above, which `Ace` does not have.
    pub open spec fn above(self) -> Option<Number> {
        match self {
            Number::Two => Some(Number::Three),
            Number::Three => Some(Number::Four),
            Number::Four => Some(Number::Five),
            Number::Five => Some(Number::Six),
            Number::Six => Some(Number::Seven),
            Number::Seven => Some(Number::Eight),
            Number::Eight => Some(Number::Nine),
            Number::Nine => Some(Number::Ten),
            Number::Ten => Some(Number::Jack),
            Number::Jack => Some(Number::Queen),
            Number::Queen => Some(Number::King),
            Number::King => Some(Number::Ace),
            Number::Ace => None,
        }
    }

    fn successor(self) -> (r: Option<Number>)
        ensures
            r == self.above(),
    {
        match self {
            Number::Two => Some(Number::Three),
            Number::Three => Some(Number::Four),
            Number::Four => Some(Number::Five),
            Number::Five => Some(Number::Six),
            Number::Six => Some(Number::Seven),
            Number::Seven => Some(Number::Eight),
            Number::Eight => Some(Number::Nine),
            Number::Nine => Some(Number::Ten),
            Number::Ten => Some(Number::Jack),
            Number::Jack => Some(Number::Queen),
            Number::Queen => Some(Number::King),
            Number::King => Some(Number::Ace),
            Number::Ace => None,
        }
    }

    /// The number one above in a suit that lacks `missing`.
    pub open spec fn above_without(self, missing: Number) -> Option<Number> {
        match self.above() {
            Some(n) => if n == missing {
                n.above()
            } else {
                Some(n)
            },
            None => None,
        }
    }

    fn successor_without(self, missing: Number) -> (r: Option<Number>)
        ensures
            r == self.above_without(missing),
    {
        match self.successor() {
            Some(n) => if n == missing {
                n.successor()
            } else {
                Some(n)
            },
            None => None,
        }
    }
}

impl Card {
    /// Fives are worth 5 points, tens and kings 10; nothing else scores.
    pub open spec fn worth(self) -> Option<nat> {
        match self {
            Card::Suited { number: Number::Five, .. } => Some(5),
            Card::Suited { number: Number::Ten, .. } => Some(10),
            Card::Suited { number: Number::King, .. } => Some(10),
            _ => None,
        }
    }

    /// The points the card is worth, if it is a point card.
    pub fn points(&self) -> (r: Option<usize>)
        ensures
            match r {
                Some(n) => self.worth() == Some(n as nat),
                None => self.worth() is None,
            },
    {
        match self {
            Card::Suited { number: Number::Five, .. } => Some(5),
            Card::Suited { number: Number::Ten, .. } => Some(10),
            Card::Suited { number: Number::King, .. } => Some(10),
            _ => None,
        }
    }
}

/// The outcome of comparing `a` with `b`.
pub open spec fn order_of(a: int, b: int) -> Ordering {
    if a < b {
        Ordering::Less
    } else if a == b {
        Ordering::Equal
    } else {
        Ordering::Greater
    }
}

fn compare_numbers(a: u32, b: u32) -> (r: Ordering)
    ensures
        match r {
            Ordering::Less => a < b,
            Ordering::Equal => a == b,
            Ordering::Greater => a > b,
        },
{
    if a < b {
        Ordering::Less
    } else if a == b {
        Ordering::Equal
    } else {
        Ordering::Greater
    }
}

impl Trump {
    pub open spec fn trump_number(self) -> Number {
        match self {
            Trump::Standard { number, .. } => number,
            Trump::NoTrump { number } => number,
        }
    }

    /// The number whose cards are all trump.
    pub fn number(self) -> (r: Number)
        ensures
            r == self.trump_number(),
    {
        match self {
            Trump::Standard { number, .. } => number,
            Trump::NoTrump { number } => number,
        }
    }

    /// Whether cards of `suit` are trump whatever their number.
    pub open spec fn is_trump_suit(self, suit: Suit) -> bool {
        match self {
            Trump::Standard { suit: s, .. } => s == suit,
            Trump::NoTrump { .. } => false,
        }
    }

    fn has_trump_suit(self, suit: Suit) -> (r: bool)
        ensures
            r == self.is_trump_suit(suit),
    {
        match self {
            Trump::Standard { suit: s, .. } => s == suit,
            Trump::NoTrump { .. } => false,
        }
    }

    /// The suit that `card` counts as.
    pub open spec fn suit_of(self, card: Card) -> EffectiveSuit {
        match card {
            Card::Suited { suit, number } => if number == self.trump_number() || self.is_trump_suit(
                suit,
            ) {
                EffectiveSuit::Trump
            } else {
                suit.plain()
            },
            Card::SmallJoker => EffectiveSuit::Trump,
            Card::BigJoker => EffectiveSuit::Trump,
        }
    }

    /// The suit that `card` counts as.
    pub fn effective_suit(self, card: Card) -> (r: EffectiveSuit)
        ensures
            r == self.suit_of(card),
    {
        match card {
            Card::Suited { suit, number } => if number == self.number() || self.has_trump_suit(
                suit,
            ) {
                EffectiveSuit::Trump
            } else {
                match suit {
                    Suit::Clubs => EffectiveSuit::Clubs,
                    Suit::Diamonds => EffectiveSuit::Diamonds,
                    Suit::Spades => EffectiveSuit::Spades,
                    Suit::Hearts => EffectiveSuit::Hearts,
                }
            },
            Card::SmallJoker => EffectiveSuit::Trump,
            Card::BigJoker => EffectiveSuit::Trump,
        }
    }

    /// How high `card` stands within its effective suit, counted in steps from the lowest card.
    /// The cards of the trump number outside the trump suit share one step.
    pub open spec fn tier(self, card: Card) -> int {
        match (self, card) {
            (_, Card::Suited { number, suit }) => if number != self.trump_number() {
                if number.position() > self.trump_number().position() {
                    number.position() - 1
                } else {
                    number.position()
                }
            } else if self.is_trump_suit(suit) {
                13
            } else {
                12
            },
            (Trump::Standard { .. }, Card::SmallJoker) => 14,
            (Trump::Standard { .. }, Card::BigJoker) => 15,
            (Trump::NoTrump { .. }, Card::SmallJoker) => 13,
            (Trump::NoTrump { .. }, Card::BigJoker) => 14,
        }
    }

    fn step(self, card: Card) -> (r: u32)
        ensures
            r == self.tier(card),
            r <= 15,
    {
        match card {
            Card::Suited { suit, number } => if number != self.number() {
                if number.index() > self.number().index() {
                    number.index() - 1
                } else {
                    number.index()
                }
            } else if self.has_trump_suit(suit) {
                13
            } else {
                12
            },
            Card::SmallJoker => match self {
                Trump::Standard { .. } => 14,
                Trump::NoTrump { .. } => 13,
            },
            Card::BigJoker => match self {
                Trump::Standard { .. } => 15,
                Trump::NoTrump { .. } => 14,
            },
        }
    }

    /// What decides between two cards in play: the effective suit first, then the tier.
    pub open spec fn strength(self, card: Card) -> int {
        16 * self.suit_of(card).position() + self.tier(card)
    }

    /// Position of `card` in the order of all cards: by strength, and cards of equal strength
    /// by their suits.
    pub open spec fn rank(self, card: Card) -> int {
        4 * self.strength(card) + if self.tier(card) == 12 {
            match card {
                Card::Suited { suit, .. } => suit.position(),
                _ => 0,
            }
        } else {
            0
        }
    }

    fn power(self, card: Card) -> (r: u32)
        ensures
            r == self.strength(card),
            r < 80,
    {
        16 * self.effective_suit(card).index() + self.step(card)
    }

    fn place(self, card: Card) -> (r: u32)
        ensures
            r == self.rank(card),
            r < 320,
    {
        let tie: u32 = if self.step(card) == 12 {
            match card {
                Card::Suited { suit, .. } => suit.index(),
                _ => 0,
            }
        } else {
            0
        };
        4 * self.power(card) + tie
    }

    /// Whether `a` comes before `b` in the order of all cards.
    pub fn before(self, a: Card, b: Card) -> (r: bool)
        ensures
            r == (self.rank(a) < self.rank(b)),
    {
        self.place(a) < self.place(b)
    }

    /// Compares two cards in the order of all cards.
    pub fn compare(self, a: Card, b: Card) -> (r: Ordering)
        ensures
            r == order_of(self.rank(a), self.rank(b)),
    {
        compare_numbers(self.place(a), self.place(b))
    }

    /// Compares two cards by what decides in play, so that the cards of the trump number
    /// outside the trump suit are all equal.
    pub fn compare_effective(self, a: Card, b: Card) -> (r: Ordering)
        ensures
            r == order_of(self.strength(a), self.strength(b)),
    {
        compare_numbers(self.power(a), self.power(b))
    }

    /// The cards of the trump number outside the suit `skip`, by suit.
    pub open spec fn number_cards_outside(number: Number, skip: Suit) -> Seq<Card> {
        match skip {
            Suit::Clubs => seq![
                Card::Suited { suit: Suit::Diamonds, number },
                Card::Suited { suit: Suit::Spades, number },
                Card::Suited { suit: Suit::Hearts, number },
            ],
            Suit::Diamonds => seq![
                Card::Suited { suit: Suit::Clubs, number },
                Card::Suited { suit: Suit::Spades, number },
                Card::Suited { suit: Suit::Hearts, number },
            ],
            Suit::Spades => seq![
                Card::Suited { suit: Suit::Clubs, number },
                Card::Suited { suit: Suit::Diamonds, number },
                Card::Suited { suit: Suit::Hearts, number },
            ],
            Suit::Hearts => seq![
                Card::Suited { suit: Suit::Clubs, number },
                Card::Suited { suit: Suit::Diamonds, number },
                Card::Suited { suit: Suit::Spades, number },
            ],
        }
    }

    /// The cards one tier above `card` in its effective suit, by suit.
    pub open spec fn successors(self, card: Card) -> Seq<Card> {
        match card {
            Card::BigJoker => seq![],
            Card::SmallJoker => seq![Card::BigJoker],
            Card::Suited { suit, number } => if number == self.trump_number() {
                match self {
                    Trump::Standard { suit: trump_suit, .. } => if suit == trump_suit {
                        seq![Card::SmallJoker]
                    } else {
                        seq![Card::Suited { suit: trump_suit, number }]
                    },
                    Trump::NoTrump { .. } => seq![Card::SmallJoker],
                }
            } else {
                match number.above_without(self.trump_number()) {
                    Some(n) => seq![Card::Suited { suit, number: n }],
                    None => if self.is_trump_suit(suit) {
                        Self::number_cards_outside(self.trump_number(), suit)
                    } else {
                        seq![]
                    },
                }
            },
        }
    }

    fn number_cards_except(number: Number, skip: Suit) -> (r: Vec<Card>)
        ensures
            r@ == Self::number_cards_outside(number, skip),
    {
        let clubs = Card::Suited { suit: Suit::Clubs, number };
        let diamonds = Card::Suited { suit: Suit::Diamonds, number };
        let spades = Card::Suited { suit: Suit::Spades, number };
        let hearts = Card::Suited { suit: Suit::Hearts, number };
        match skip {
            Suit::Clubs => vec![diamonds, spades, hearts],
            Suit::Diamonds => vec![clubs, spades, hearts],
            Suit::Spades => vec![clubs, diamonds, hearts],
            Suit::Hearts => vec![clubs, diamonds, spades],
        }
    }

    /// The cards that directly follow `card`: a run of pairs continues with any of them.
    pub fn successor(self, card: Card) -> (r: Vec<Card>)
        ensures
            r@ == self.successors(card),
    {
        match card {
            Card::BigJoker => vec![],
            Card::SmallJoker => vec![Card::BigJoker],
            Card::Suited { suit, number } => if number == self.number() {
                match self {
                    Trump::Standard { suit: trump_suit, .. } => if suit == trump_suit {
                        vec![Card::SmallJoker]
                    } else {
                        vec![Card::Suited { suit: trump_suit, number }]
                    },
                    Trump::NoTrump { .. } => vec![Card::SmallJoker],
                }
            } else {
                match number.successor_without(self.number()) {
                    Some(n) => vec![Card::Suited { suit, number: n }],
                    None => if self.has_trump_suit(suit) {
                        Self::number_cards_except(self.number(), suit)
                    } else {
                        vec![]
                    },
                }
            },
        }
    }
}

proof fn lemma_number_positions(a: Number, b: Number)
    ensures
        a.position() == b.position() ==> a == b,
        0 <= a.position() <= 12,
        a.above() is None <==> a.position() == 12,
        a.above() is Some ==> a.above()->0.position() == a.position() + 1,
{
}

/// No two cards have the same rank, so the order of all cards is total.
pub proof fn rank_is_injective(t: Trump, a: Card, b: Card)
    requires
        t.rank(a) == t.rank(b),
    ensures
        a == b,
{
    match (a, b) {
        (Card::Suited { number: x, .. }, Card::Suited { number: y, .. }) => {
            lemma_number_positions(x, y);
            lemma_number_positions(t.trump_number(), x);
        },
        _ => {},
    }
}

/// The successors of a card are exactly the cards of its effective suit that stand one tier
/// higher, each listed once and in ascending order.
pub proof fn successors_are_the_next_tier(t: Trump, card: Card)
    ensures
        forall|d: Card|
            #[trigger] t.successors(card).contains(d) <==> t.suit_of(d) == t.suit_of(card)
                && t.tier(d) == t.tier(card) + 1,
        forall|i: int, j: int|
            0 <= i < j < t.successors(card).len() ==> t.rank(#[trigger] t.successors(card)[i])
                < t.rank(#[trigger] t.successors(card)[j]),
{
    let s = t.successors(card);
    assert forall|d: Card|
        t.suit_of(d) == t.suit_of(card) && t.tier(d) == t.tier(card) + 1 implies s.contains(d) by {
        lemma_successor_listed(t, card, d);
    }
    assert forall|d: Card| s.contains(d) implies t.suit_of(d) == t.suit_of(card) && t.tier(d)
        == t.tier(card) + 1 by {
        let i = choose|i: int| 0 <= i < s.len() && s[i] == d;
        lemma_successor_steps(t, card, i);
    }
}

proof fn lemma_successor_steps(t: Trump, card: Card, i: int)
    requires
        0 <= i < t.successors(card).len(),
    ensures
        t.suit_of(t.successors(card)[i]) == t.suit_of(card),
        t.tier(t.successors(card)[i]) == t.tier(card) + 1,
{
    if let Card::Suited { number, .. } = card {
        lemma_number_positions(number, t.trump_number());
        lemma_number_positions(t.trump_number(), number);
        if let Some(n) = number.above() {
            lemma_number_positions(n, t.trump_number());
        }
    }
}

proof fn lemma_successor_listed(t: Trump, card: Card, d: Card)
    requires
        t.suit_of(d) == t.suit_of(card),
        t.tier(d) == t.tier(card) + 1,
    ensures
        t.successors(card).contains(d),
{
    let s = t.successors(card);
    lemma_number_positions(t.trump_number(), t.trump_number());
    if let Card::Suited { number, .. } = card {
        lemma_number_positions(number, t.trump_number());
        if let Some(n) = number.above() {
            lemma_number_positions(n, t.trump_number());
            if let Some(m) = n.above() {
                lemma_number_positions(m, t.trump_number());
            }
        }
    }
    if let Card::Suited { number, .. } = d {
        lemma_number_positions(number, t.trump_number());
        if let Some(n) = number.above() {
            lemma_number_positions(n, t.trump_number());
        }
        if let Card::Suited { number: x, .. } = card {
            if let Some(n) = x.above() {
                lemma_number_positions(n, number);
                if let Some(m) = n.above() {
                    lemma_number_positions(m, number);
                }
            }
        }
    }
    if s.len() == 1 {
        assert(s[0] == d);
    } else if s.len() == 3 {
        assert(s[0] == d || s[1] == d || s[2] == d);
    }
}

} // verus!
