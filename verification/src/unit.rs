//! The units that plays are made of: repeated cards and tractors.

use crate::search::total_shape_size;
use crate::small::{write_card, Cards, OrderedCards, ShapeLists, Shapes};
use crate::types::{order_of, Card, Trump};
use std::cmp::Ordering;
use std::fmt::{Debug, Error, Formatter};
use vstd::prelude::*;
use vstd::multiset::Multiset;

verus! {

/// A card with the trump that decides where it stands.
#[derive(Clone, Copy, PartialEq, Eq, Hash, Structural)]
pub struct OrderedCard {
    pub card: Card,
    pub trump: Trump,
}

/// One unit of a play: `count` copies of a card, or of each member of a run.
#[derive(PartialEq, Eq)]
pub enum TrickUnit {
    Tractor { count: usize, members: OrderedCards },
    Repeated { count: usize, card: OrderedCard },
}

/// The shape of a unit, whatever its cards.
#[derive(Clone, Copy, Debug, PartialEq, Eq, Hash, Structural)]
pub enum UnitLike {
    Tractor { count: usize, length: usize },
    Repeated { count: usize },
}

/// What a `TrickUnit` stands for.
pub enum Unit {
    Tractor { count: nat, members: Seq<OrderedCard> },
    Repeated { count: nat, card: OrderedCard },
}

impl View for TrickUnit {
    type V = Unit;

    open spec fn view(&self) -> Unit {
        match *self {
            TrickUnit::Tractor { count, members } => Unit::Tractor {
                count: count as nat,
                members: members@,
            },
            TrickUnit::Repeated { count, card } => Unit::Repeated { count: count as nat, card },
        }
    }
}

/// `n` copies of `x`.
pub open spec fn copies<T>(x: T, n: nat) -> Seq<T> {
    Seq::new(n, |i: int| x)
}

/// The cards of `members`, each `n` times in a row.
pub open spec fn each_repeated(members: Seq<OrderedCard>, n: nat) -> Seq<Card>
    decreases members.len(),
{
    if members.len() == 0 {
        seq![]
    } else {
        each_repeated(members.drop_last(), n) + copies(members.last().card, n)
    }
}

impl Unit {
    /// The different cards of the unit, from lowest to highest.
    pub open spec fn members(self) -> Seq<OrderedCard> {
        match self {
            Unit::Tractor { members, .. } => members,
            Unit::Repeated { card, .. } => seq![card],
        }
    }

    /// How often each card of the unit occurs in it.
    pub open spec fn width(self) -> nat {
        match self {
            Unit::Tractor { count, .. } => count,
            Unit::Repeated { count, .. } => count,
        }
    }

    /// How many cards the unit has.
    pub open spec fn size(self) -> nat {
        match self {
            Unit::Tractor { count, members } => count * members.len(),
            Unit::Repeated { count, .. } => count,
        }
    }

    pub open spec fn first(self) -> OrderedCard {
        self.members()[0]
    }

    /// The cards of the unit, member by member.
    pub open spec fn cards(self) -> Seq<Card> {
        each_repeated(self.members(), self.width())
    }

    /// The cards of the unit, in no order.
    pub open spec fn tally(self) -> Multiset<Card> {
        self.cards().to_multiset()
    }

    pub open spec fn shape(self) -> UnitLike {
        match self {
            Unit::Tractor { count, members } => UnitLike::Tractor {
                count: count as usize,
                length: members.len() as usize,
            },
            Unit::Repeated { count, .. } => UnitLike::Repeated { count: count as usize },
        }
    }
}

impl UnitLike {
    /// How many cards a unit of this shape has.
    pub open spec fn size(self) -> nat {
        match self {
            UnitLike::Tractor { count, length } => (count * length) as nat,
            UnitLike::Repeated { count } => count as nat,
        }
    }

    /// The next weaker requirements: each is a list of shapes that takes the place of this one.
    /// A tractor is narrowed by one card, or loses its last member, which then stands for
    /// itself; repeated cards become one fewer. Pairs and single cards are not weakened.
    pub open spec fn weaker(self) -> Seq<Seq<UnitLike>> {
        match self {
            UnitLike::Tractor { count, length } => {
                let narrower = if count > 2 {
                    seq![seq![UnitLike::Tractor { count: (count - 1) as usize, length }]]
                } else {
                    seq![]
                };
                let shorter = if length > 2 {
                    seq![
                        seq![
                            UnitLike::Tractor { count, length: (length - 1) as usize },
                            UnitLike::Repeated { count },
                        ],
                    ]
                } else if length == 2 {
                    seq![seq![UnitLike::Repeated { count }, UnitLike::Repeated { count }]]
                } else {
                    seq![]
                };
                narrower + shorter
            },
            UnitLike::Repeated { count } => if count > 2 {
                seq![seq![UnitLike::Repeated { count: (count - 1) as usize }]]
            } else {
                seq![]
            },
        }
    }

    /// The next weaker requirements, see `weaker`.
    pub fn decompose(&self) -> (r: ShapeLists)
        ensures
            r.model() == self.weaker(),
    {
        let mut units = ShapeLists::new();
        match *self {
            UnitLike::Tractor { count, length } => {
                if count > 2 {
                    let mut narrower = Shapes::new();
                    narrower.push(UnitLike::Tractor { length, count: count - 1 });
                    units.push(narrower);
                }
                if length > 2 {
                    let mut shorter = Shapes::new();
                    shorter.push(UnitLike::Tractor { length: length - 1, count });
                    shorter.push(UnitLike::Repeated { count });
                    units.push(shorter);
                } else if length == 2 {
                    let mut shorter = Shapes::new();
                    shorter.push(UnitLike::Repeated { count });
                    shorter.push(UnitLike::Repeated { count });
                    units.push(shorter);
                }
            },
            UnitLike::Repeated { count } => {
                if count > 2 {
                    let mut fewer = Shapes::new();
                    fewer.push(UnitLike::Repeated { count: count - 1 });
                    units.push(fewer);
                }
            },
        }
        assert(units.model() =~~= self.weaker());
        units
    }
}

impl Debug for OrderedCard {
    /// Writes the card alone.
    fn fmt(&self, f: &mut Formatter<'_>) -> Result<(), Error> {
        write_card(f, self.card)
    }
}

impl Debug for TrickUnit {
    /// Writes the cards of the unit.
    fn fmt(&self, f: &mut Formatter<'_>) -> Result<(), Error> {
        self.cards().write(f)
    }
}

impl<'a> From<&'a TrickUnit> for UnitLike {
    fn from(u: &'a TrickUnit) -> (r: UnitLike) {
        match u {
            TrickUnit::Tractor { count, members } => UnitLike::Tractor {
                count: *count,
                length: members.as_slice().len(),
            },
            TrickUnit::Repeated { count, .. } => UnitLike::Repeated { count: *count },
        }
    }
}

impl<'a> vstd::std_specs::convert::FromSpecImpl<&'a TrickUnit> for UnitLike {
    open spec fn obeys_from_spec() -> bool {
        true
    }

    open spec fn from_spec(u: &'a TrickUnit) -> UnitLike {
        u@.shape()
    }
}

impl Clone for TrickUnit {
    fn clone(&self) -> (r: TrickUnit)
        ensures
            r@ == self@,
    {
        match self {
            TrickUnit::Tractor { count, members } => TrickUnit::Tractor {
                count: *count,
                members: members.clone(),
            },
            TrickUnit::Repeated { count, card } => TrickUnit::Repeated {
                count: *count,
                card: *card,
            },
        }
    }
}

impl TrickUnit {
    pub fn is_tractor(&self) -> (r: bool)
        ensures
            r == (self@ is Tractor),
    {
        match self {
            TrickUnit::Tractor { .. } => true,
            TrickUnit::Repeated { .. } => false,
        }
    }

    pub fn is_repeated(&self) -> (r: bool)
        ensures
            r == (self@ is Repeated),
    {
        match self {
            TrickUnit::Tractor { .. } => false,
            TrickUnit::Repeated { .. } => true,
        }
    }

    /// How many cards the unit has.
    pub fn size(&self) -> (r: usize)
        requires
            self@.size() <= usize::MAX,
        ensures
            r == self@.size(),
    {
        match self {
            TrickUnit::Repeated { count, .. } => *count,
            TrickUnit::Tractor { count, members } => *count * members.as_slice().len(),
        }
    }

    /// The lowest card of the unit.
    pub fn first_card(&self) -> (r: OrderedCard)
        requires
            self@.members().len() > 0,
        ensures
            r == self@.first(),
    {
        match self {
            TrickUnit::Repeated { card, .. } => *card,
            TrickUnit::Tractor { members, .. } => members.as_slice()[0],
        }
    }

    /// The cards of the unit, member by member.
    pub fn cards(&self) -> (r: Cards)
        ensures
            r@ == self@.cards(),
    {
        let mut cards = Cards::new();
        match self {
            TrickUnit::Tractor { count, members } => {
                let members = members.as_slice();
                for i in 0..members.len()
                    invariant
                        cards@ == each_repeated(members@.take(i as int), *count as nat),
                {
                    push_copies(&mut cards, members[i].card, *count);
                    assert(members@.take(i + 1).drop_last() =~= members@.take(i as int));
                }
                assert(members@.take(members.len() as int) =~= members@);
            },
            TrickUnit::Repeated { count, card } => {
                push_copies(&mut cards, card.card, *count);
                reveal_with_fuel(each_repeated, 2);
                assert(cards@ =~= self@.cards());
            },
        }
        cards
    }
}

fn push_copies(cards: &mut Cards, card: Card, count: usize)
    ensures
        final(cards)@ == old(cards)@ + copies(card, count as nat),
{
    let ghost before = cards@;
    for i in 0..count
        invariant
            cards@ == before + copies(card, i as nat),
    {
        cards.push(card);
        assert(cards@ =~= before + copies(card, (i + 1) as nat));
    }
}

/// The cards of `counts`, each as often as its count says.
pub open spec fn spread(counts: Seq<(OrderedCard, usize)>) -> Seq<OrderedCard>
    decreases counts.len(),
{
    if counts.len() == 0 {
        seq![]
    } else {
        spread(counts.drop_last()) + copies(counts.last().0, counts.last().1 as nat)
    }
}

impl OrderedCard {
    pub open spec fn rank(self) -> int {
        self.trump.rank(self.card)
    }

    /// The cards one tier above in the same effective suit.
    pub open spec fn next(self) -> Seq<OrderedCard> {
        self.trump.successors(self.card).map_values(
            |card: Card| OrderedCard { card, trump: self.trump },
        )
    }

    /// The cards that directly follow this one.
    pub fn successor(self) -> (r: OrderedCards)
        ensures
            r@ == self.next(),
    {
        let cards = self.trump.successor(self.card);
        let mut next = OrderedCards::new();
        for i in 0..cards.len()
            invariant
                cards@ == self.trump.successors(self.card),
                next@ == self.next().take(i as int),
        {
            next.push(OrderedCard { card: cards[i], trump: self.trump });
            assert(next@ =~= self.next().take(i + 1));
        }
        assert(self.next().take(cards.len() as int) =~= self.next());
        next
    }

    /// Lists every card of `counts` as often as its count says.
    pub fn cards(counts: &[(OrderedCard, usize)]) -> (r: Vec<OrderedCard>)
        ensures
            r@ == spread(counts@),
    {
        let mut cards: Vec<OrderedCard> = Vec::new();
        for i in 0..counts.len()
            invariant
                cards@ == spread(counts@.take(i as int)),
        {
            let (card, count) = counts[i];
            let ghost before = cards@;
            for j in 0..count
                invariant
                    cards@ == before + copies(card, j as nat),
            {
                cards.push(card);
                assert(cards@ =~= before + copies(card, (j + 1) as nat));
            }
            assert(counts@.take(i + 1).drop_last() =~= counts@.take(i as int));
        }
        assert(counts@.take(counts.len() as int) =~= counts@);
        cards
    }

    /// Compares the two cards in the order of all cards under this card's trump.
    pub fn cmp(&self, o: &OrderedCard) -> (r: Ordering)
        ensures
            r == order_of(self.rank(), self.trump.rank(o.card)),
    {
        self.trump.compare(self.card, o.card)
    }
}

impl PartialOrd for OrderedCard {
    fn partial_cmp(&self, o: &OrderedCard) -> (r: Option<Ordering>) {
        Some(self.trump.compare(self.card, o.card))
    }
}

impl vstd::std_specs::cmp::PartialOrdSpecImpl for OrderedCard {
    open spec fn obeys_partial_cmp_spec() -> bool {
        true
    }

    open spec fn partial_cmp_spec(&self, o: &OrderedCard) -> Option<Ordering> {
        Some(order_of(self.trump.rank(self.card), self.trump.rank(o.card)))
    }
}

proof fn lemma_each_repeated_len(members: Seq<OrderedCard>, n: nat)
    ensures
        each_repeated(members, n).len() == n * members.len(),
    decreases members.len(),
{
    if members.len() == 0 {
        assert(n * 0 == 0) by (nonlinear_arith);
    } else {
        lemma_each_repeated_len(members.drop_last(), n);
        let k = members.len();
        assert(n * (k - 1) + n == n * k) by (nonlinear_arith)
            requires
                k >= 1,
        ;
    }
}

/// A unit has as many cards as its size says.
pub proof fn size_counts_the_cards(u: Unit)
    ensures
        u.cards().len() == u.size(),
{
    lemma_each_repeated_len(u.members(), u.width());
    match u {
        Unit::Repeated { count, .. } => {
            assert(count * 1 == count) by (nonlinear_arith);
        },
        Unit::Tractor { .. } => {},
    }
}

/// A weaker requirement never asks for more cards.
pub proof fn weaker_asks_for_no_more(shape: UnitLike, k: int)
    requires
        0 <= k < shape.weaker().len(),
    ensures
        total_shape_size(shape.weaker()[k]) <= shape.size(),
{
    let weaker = shape.weaker()[k];
    reveal_with_fuel(total_shape_size, 3);
    match shape {
        UnitLike::Tractor { count, length } => {
            assert((count - 1) * length <= count * length) by (nonlinear_arith)
                requires
                    length >= 0,
            ;
            assert(count * (length - 1) + count == count * length) by (nonlinear_arith);
            if length == 2 {
                assert(count * length == count + count) by (nonlinear_arith)
                    requires
                        length == 2,
                ;
            }
            if weaker.len() == 2 {
                assert(weaker.skip(1)[0] == weaker[1]);
                assert(weaker.skip(1).skip(1) =~= seq![]);
            } else {
                assert(weaker.skip(1) =~= seq![]);
            }
        },
        UnitLike::Repeated { .. } => {
            assert(weaker.skip(1) =~= seq![]);
        },
    }
}

} // verus!
