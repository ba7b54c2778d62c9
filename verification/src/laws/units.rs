//! Laws of units and their shapes.

use crate::format::TrickFormat;
use crate::order::{same_place, sorted_units, sorted_units_are_sorted, unit_before};
use crate::search::{total, total_size};
use crate::small::Units;
use crate::types::{successors_are_the_next_tier, Card, Trump};
use crate::unit::{each_repeated, spread, OrderedCard, TrickUnit, Unit, UnitLike};
use vstd::multiset::Multiset;
use vstd::prelude::*;

verus! {

broadcast use {vstd::multiset::group_multiset_axioms, vstd::seq_lib::group_to_multiset_ensures};

proof fn lemma_repeated_at(members: Seq<OrderedCard>, n: nat, k: int, j: int)
    requires
        0 <= k < members.len(),
        0 <= j < n,
    ensures
        each_repeated(members, n).len() == n * members.len(),
        0 <= n * k + j < n * members.len(),
        each_repeated(members, n)[n * k + j] == members[k].card,
    decreases members.len(),
{
    let rest = members.drop_last();
    let len = members.len() as int;
    assert(n * (len - 1) + n == n * len) by (nonlinear_arith);
    lemma_repeated_len(rest, n);
    assert(n * k + j < n * (k + 1)) by (nonlinear_arith)
        requires
            j < n,
    ;
    assert(0 <= n * k) by (nonlinear_arith)
        requires
            n >= 0,
            k >= 0,
    ;
    assert(n * (k + 1) <= n * len) by (nonlinear_arith)
        requires
            k + 1 <= len,
            n >= 0,
    ;
    if k < len - 1 {
        lemma_repeated_at(rest, n, k, j);
        assert(rest[k] == members[k]);
    }
}

proof fn lemma_repeated_len(members: Seq<OrderedCard>, n: nat)
    ensures
        each_repeated(members, n).len() == n * members.len(),
    decreases members.len(),
{
    let len = members.len() as int;
    if len == 0 {
        assert(n * len == 0) by (nonlinear_arith)
            requires
                len == 0,
        ;
    } else {
        lemma_repeated_len(members.drop_last(), n);
        assert(n * (len - 1) + n == n * len) by (nonlinear_arith);
    }
}

/// Repeated cards are so many copies of the card. A tractor is so many copies of its first member,
/// then as many of the next, and so on.
pub proof fn cards_of_a_unit(u: Unit)
    ensures
        u.tally() == u.cards().to_multiset(),
        match u {
            Unit::Repeated { count, card } => u.cards() == Seq::new(count, |i: int| card.card),
            Unit::Tractor { count, members } => {
                &&& u.cards().len() == count * members.len()
                &&& forall|i: int|
                    0 <= i < u.cards().len() ==> #[trigger] u.cards()[i] == members[i
                        / count as int].card
            },
        },
{
    match u {
        Unit::Repeated { count, card } => {
            reveal_with_fuel(each_repeated, 2);
            assert(u.members() =~= seq![card]);
            assert(seq![card].drop_last() =~= seq![]);
            assert(u.cards() =~= Seq::new(count, |i: int| card.card));
        },
        Unit::Tractor { count, members } => {
            lemma_repeated_len(members, count);
            assert forall|i: int| 0 <= i < u.cards().len() implies #[trigger] u.cards()[i]
                == members[i / count as int].card by {
                let n = count as int;
                let len = members.len() as int;
                assert(n > 0) by (nonlinear_arith)
                    requires
                        0 <= i < n * len,
                        n >= 0,
                ;
                assert(0 <= i / n < len && 0 <= i % n < n && n * (i / n) + i % n == i)
                    by (nonlinear_arith)
                    requires
                        0 <= i < n * len,
                        n > 0,
                ;
                lemma_repeated_at(members, count, i / n, i % n);
            }
        },
    }
}

/// What a unit measures, by its kind.
pub proof fn measures_of_a_unit(u: Unit)
    ensures
        match u {
            Unit::Repeated { count, card } => {
                &&& u.size() == count
                &&& u.width() == count
                &&& u.first() == card
                &&& u.members() == seq![card]
                &&& u.shape() == UnitLike::Repeated { count: count as usize }
            },
            Unit::Tractor { count, members } => {
                &&& u.size() == count * members.len()
                &&& u.width() == count
                &&& members.len() > 0 ==> u.first() == members[0]
                &&& u.members() == members
                &&& u.shape() == UnitLike::Tractor {
                    count: count as usize,
                    length: members.len() as usize,
                }
            },
        },
{
}

/// How a requirement is weakened: a tractor wider than a pair loses a card everywhere; a tractor
/// of more than two members loses its last one, which stands for itself; one of two members
/// falls apart; repeated cards become one fewer down to a pair. Narrowing is listed first.
pub proof fn how_shapes_weaken(shape: UnitLike)
    ensures
        match shape {
            UnitLike::Repeated { count } => {
                &&& count <= 2 ==> shape.weaker().len() == 0
                &&& count > 2 ==> shape.weaker() == seq![
                    seq![UnitLike::Repeated { count: (count - 1) as usize }],
                ]
            },
            UnitLike::Tractor { count, length } => {
                let narrower = seq![UnitLike::Tractor { count: (count - 1) as usize, length }];
                let shorter = seq![
                    UnitLike::Tractor { count, length: (length - 1) as usize },
                    UnitLike::Repeated { count },
                ];
                let apart = seq![UnitLike::Repeated { count }, UnitLike::Repeated { count }];
                &&& count > 2 && length > 2 ==> shape.weaker() == seq![narrower, shorter]
                &&& count > 2 && length == 2 ==> shape.weaker() == seq![narrower, apart]
                &&& count > 2 && length < 2 ==> shape.weaker() == seq![narrower]
                &&& count <= 2 && length > 2 ==> shape.weaker() == seq![shorter]
                &&& count <= 2 && length == 2 ==> shape.weaker() == seq![apart]
                &&& count <= 2 && length < 2 ==> shape.weaker().len() == 0
            },
        },
{
    match shape {
        UnitLike::Repeated { .. } => {},
        UnitLike::Tractor { count, length } => {
            let narrower = seq![UnitLike::Tractor { count: (count - 1) as usize, length }];
            let shorter = seq![
                UnitLike::Tractor { count, length: (length - 1) as usize },
                UnitLike::Repeated { count },
            ];
            let apart = seq![UnitLike::Repeated { count }, UnitLike::Repeated { count }];
            let w = shape.weaker();
            if count > 2 && length > 2 {
                assert(w =~= seq![narrower, shorter]);
            } else if count > 2 && length == 2 {
                assert(w =~= seq![narrower, apart]);
            } else if count > 2 {
                assert(w =~= seq![narrower]);
            } else if length > 2 {
                assert(w =~= seq![shorter]);
            } else if length == 2 {
                assert(w =~= seq![apart]);
            }
        },
    }
}

/// How many cards a shape asks for.
pub proof fn size_of_a_shape(shape: UnitLike)
    ensures
        match shape {
            UnitLike::Repeated { count } => shape.size() == count,
            UnitLike::Tractor { count, length } => shape.size() == count * length,
        },
{
}

/// Listing cards by counts goes count by count.
pub proof fn spreading_counts(
    a: Seq<(OrderedCard, usize)>,
    b: Seq<(OrderedCard, usize)>,
    card: OrderedCard,
    n: usize,
)
    ensures
        spread(a + b) == spread(a) + spread(b),
        spread(seq![(card, n)]) == Seq::new(n as nat, |i: int| card),
        spread(Seq::<(OrderedCard, usize)>::empty()).len() == 0,
    decreases b.len(),
{
    reveal_with_fuel(spread, 2);
    let one = seq![(card, n)];
    assert(one.drop_last() =~= seq![]);
    assert(spread(one) =~= Seq::new(n as nat, |i: int| card));
    if b.len() == 0 {
        assert(a + b =~= a);
        assert(spread(a) + spread(b) =~= spread(a));
    } else {
        spreading_counts(a, b.drop_last(), card, n);
        assert((a + b).drop_last() =~= a + b.drop_last());
        assert((a + b).last() == b.last());
        assert(spread(a + b) =~= spread(a) + spread(b));
    }
}

/// What may come next after a card is its successors under its own trump, the lower first.
pub proof fn what_comes_next(card: OrderedCard)
    ensures
        forall|d: OrderedCard| #[trigger]
            card.next().contains(d) <==> d.trump == card.trump && card.trump.successors(
                card.card,
            ).contains(d.card),
        forall|i: int, j: int|
            0 <= i < j < card.next().len() ==> card.trump.rank((#[trigger] card.next()[i]).card)
                < card.trump.rank((#[trigger] card.next()[j]).card),
        card.rank() == card.trump.rank(card.card),
{
    let cards = card.trump.successors(card.card);
    successors_are_the_next_tier(card.trump, card.card);
    assert forall|d: OrderedCard| #[trigger]
        card.next().contains(d) <==> d.trump == card.trump && cards.contains(d.card) by {
        if card.next().contains(d) {
            let i = card.next().index_of(d);
            assert(cards[i] == d.card);
        }
        if d.trump == card.trump && cards.contains(d.card) {
            let i = cards.index_of(d.card);
            assert(card.next()[i] == d);
        }
    }
    assert forall|i: int, j: int| 0 <= i < j < card.next().len() implies card.trump.rank(
        (#[trigger] card.next()[i]).card,
    ) < card.trump.rank((#[trigger] card.next()[j]).card) by {
        assert(card.next()[i].card == cards[i] && card.next()[j].card == cards[j]);
    }
}

/// The cards of several units are those of each of them together.
pub proof fn units_together(a: Seq<Unit>, b: Seq<Unit>, u: Unit)
    ensures
        total(a + b) == total(a).add(total(b)),
        total(seq![u]) == u.tally(),
        total(Seq::<Unit>::empty()) == Multiset::<Card>::empty(),
        total_size(a + b) == total_size(a) + total_size(b),
        total_size(seq![u]) == u.size(),
        total_size(Seq::<Unit>::empty()) == 0,
    decreases b.len(),
{
    reveal_with_fuel(total, 2);
    reveal_with_fuel(total_size, 2);
    assert(seq![u].drop_last() =~= seq![]);
    assert(total(seq![u]) =~= u.tally());
    if b.len() == 0 {
        assert(a + b =~= a);
        assert(total(a).add(total(b)) =~= total(a));
    } else {
        units_together(a, b.drop_last(), u);
        assert((a + b).drop_last() =~= a + b.drop_last());
        assert((a + b).last() == b.last());
        assert(total(a + b) =~= total(a).add(total(b)));
    }
}

/// Sorted units are the same units, the smaller before the larger, and of equally large ones the
/// one that starts lower first. Units that agree in both keep their order.
pub proof fn sorting_units(t: Trump, units: Seq<Unit>, v: Unit)
    requires
        forall|i: int| 0 <= i < units.len() ==> (#[trigger] units[i]).first().trump == t,
        v.first().trump == t,
    ensures
        sorted_units(units).to_multiset() == units.to_multiset(),
        forall|i: int, j: int|
            0 <= i < j < sorted_units(units).len() ==> {
                let a = #[trigger] sorted_units(units)[i];
                let b = #[trigger] sorted_units(units)[j];
                a.size() < b.size() || a.size() == b.size() && t.rank(a.first().card) <= t.rank(
                    b.first().card,
                )
            },
        sorted_units(units).filter(
            |x: Unit| x.size() == v.size() && t.rank(x.first().card) == t.rank(v.first().card),
        ) == units.filter(
            |x: Unit| x.size() == v.size() && t.rank(x.first().card) == t.rank(v.first().card),
        ),
{
    let sorted = sorted_units(units);
    sorted_units_are_sorted(t, units, v);
    assert forall|i: int| 0 <= i < sorted.len() implies (#[trigger] sorted[i]).first().trump == t by {
        assert(sorted.contains(sorted[i]));
        assert(sorted.to_multiset().count(sorted[i]) > 0);
        assert(units.contains(sorted[i]));
        assert(units[units.index_of(sorted[i])] == sorted[i]);
    }
    assert forall|i: int, j: int| 0 <= i < j < sorted.len() implies {
        let a = #[trigger] sorted[i];
        let b = #[trigger] sorted[j];
        a.size() < b.size() || a.size() == b.size() && t.rank(a.first().card) <= t.rank(
            b.first().card,
        )
    } by {
        assert(!unit_before(sorted[j], sorted[i]));
        assert(sorted[j].first().trump == t);
    }
    let by_place = |x: Unit| same_place(x, v);
    let by_measure = |x: Unit|
        x.size() == v.size() && t.rank(x.first().card) == t.rank(v.first().card);
    lemma_filters_agree(t, sorted, by_place, by_measure, v);
    lemma_filters_agree(t, units, by_place, by_measure, v);
}

proof fn lemma_filters_agree(
    t: Trump,
    units: Seq<Unit>,
    f: spec_fn(Unit) -> bool,
    g: spec_fn(Unit) -> bool,
    v: Unit,
)
    requires
        forall|i: int| 0 <= i < units.len() ==> (#[trigger] units[i]).first().trump == t,
        v.first().trump == t,
        f == (|x: Unit| same_place(x, v)),
        g == (|x: Unit|
            x.size() == v.size() && t.rank(x.first().card) == t.rank(v.first().card)),
    ensures
        units.filter(f) == units.filter(g),
    decreases units.len(),
{
    reveal(Seq::filter);
    if units.len() > 0 {
        let rest = units.drop_last();
        assert forall|i: int| 0 <= i < rest.len() implies (#[trigger] rest[i]).first().trump
            == t by {
            assert(rest[i] == units[i]);
        }
        lemma_filters_agree(t, rest, f, g, v);
        assert(units[units.len() - 1].first().trump == t);
    }
}

/// A unit and a list of units stand for what they hold.
pub proof fn what_units_stand_for(u: TrickUnit, units: Units, f: TrickFormat)
    ensures
        match u {
            TrickUnit::Repeated { count, card } => u@ == (Unit::Repeated {
                count: count as nat,
                card,
            }),
            TrickUnit::Tractor { count, members } => u@ == (Unit::Tractor {
                count: count as nat,
                members: members@,
            }),
        },
        units.model().len() == units@.len(),
        forall|i: int| 0 <= i < units@.len() ==> #[trigger] units.model()[i] == units@[i]@,
        f@.suit == f.suit,
        f@.trump == f.trump,
        f@.units == f.units.model(),
{
}

} // verus!
