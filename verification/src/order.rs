//! Sorting cards and units.

use crate::search::total;
use crate::small::Units;
use crate::types::{rank_is_injective, Card, Trump};
use crate::unit::{TrickUnit, Unit};
use vstd::prelude::*;
use vstd::relations::{sorted_by, total_ordering};
use vstd::seq_lib::lemma_sorted_unique;

verus! {

broadcast use {vstd::multiset::group_multiset_axioms, vstd::seq_lib::group_to_multiset_ensures};

/// `a` does not come after `b`.
pub open spec fn card_order(t: Trump) -> spec_fn(Card, Card) -> bool {
    |a: Card, b: Card| t.rank(a) <= t.rank(b)
}

/// `cards` from lowest to highest.
pub open spec fn sorted_cards(t: Trump, cards: Seq<Card>) -> Seq<Card> {
    cards.sort_by(card_order(t))
}

pub proof fn lemma_card_order_total(t: Trump)
    ensures
        total_ordering(card_order(t)),
{
    assert forall|a: Card, b: Card| #[trigger]
        card_order(t)(a, b) && #[trigger] card_order(t)(b, a) implies a == b by {
        rank_is_injective(t, a, b);
    }
}

/// Sorted cards are the same cards in order, and there is only one such list.
pub proof fn sorted_cards_are_sorted(t: Trump, cards: Seq<Card>, list: Seq<Card>)
    ensures
        sorted_cards(t, cards).to_multiset() == cards.to_multiset(),
        sorted_by(sorted_cards(t, cards), card_order(t)),
        sorted_by(list, card_order(t)) && list.to_multiset() == cards.to_multiset() ==> list
            == sorted_cards(t, cards),
{
    lemma_card_order_total(t);
    cards.lemma_sort_by_ensures(card_order(t));
    if sorted_by(list, card_order(t)) && list.to_multiset() == cards.to_multiset() {
        lemma_sorted_unique(list, sorted_cards(t, cards), card_order(t));
    }
}

/// Sorts `cards`.
pub fn sort_cards(trump: Trump, cards: &[Card]) -> (r: Vec<Card>)
    ensures
        r@ == sorted_cards(trump, cards@),
{
    let mut sorted: Vec<Card> = Vec::new();
    assert(cards@.take(0) =~= Seq::<Card>::empty());
    for i in 0..cards.len()
        invariant
            sorted@.to_multiset() == cards@.take(i as int).to_multiset(),
            sorted_by(sorted@, card_order(trump)),
    {
        let card = cards[i];
        let mut at: usize = sorted.len();
        while at > 0 && trump.before(card, sorted[at - 1])
            invariant
                at <= sorted@.len(),
                forall|j: int|
                    at <= j < sorted@.len() ==> trump.rank(card) < trump.rank(#[trigger] sorted@[j]),
            decreases at,
        {
            at = at - 1;
        }
        let ghost before = sorted@;
        sorted.insert(at, card);
        proof {
            assert(cards@.take(i + 1) =~= cards@.take(i as int).push(card));
            assert(before.insert(at as int, card).to_multiset() =~= before.to_multiset().insert(
                card,
            )) by {
                vstd::seq_lib::to_multiset_insert(before, at as int, card);
            }
            let leq = card_order(trump);
            assert forall|a: int, b: int| 0 <= a < b < sorted@.len() implies leq(
                #[trigger] sorted@[a],
                #[trigger] sorted@[b],
            ) by {
                let x = if a < at {
                    a
                } else {
                    a - 1
                };
                let y = if b < at {
                    b
                } else {
                    b - 1
                };
                if a != at {
                    assert(sorted@[a] == before[x]);
                }
                if b != at {
                    assert(sorted@[b] == before[y]);
                }
                if a != at && b != at {
                    assert(leq(before[x], before[y]));
                } else if b == at {
                    assert(leq(before[x], before[at - 1])) by {
                        if x < at - 1 {
                            assert(leq(before[x], before[at - 1]));
                        }
                    }
                }
            }
        }
    }
    proof {
        assert(cards@.take(cards.len() as int) =~= cards@);
        sorted_cards_are_sorted(trump, cards@, sorted@);
    }
    sorted
}

/// `a` comes before `b`: it is smaller, or as large with a lower first card.
pub open spec fn unit_before(a: Unit, b: Unit) -> bool {
    a.size() < b.size() || a.size() == b.size() && a.first().rank() < a.first().trump.rank(
        b.first().card,
    )
}

/// `sorted` with `u` put behind everything that it does not come before.
pub open spec fn placed(sorted: Seq<Unit>, u: Unit) -> Seq<Unit>
    decreases sorted.len(),
{
    if sorted.len() > 0 && unit_before(u, sorted.last()) {
        placed(sorted.drop_last(), u).push(sorted.last())
    } else {
        sorted.push(u)
    }
}

/// `units` by size and then by first card; units that agree in both keep their order.
pub open spec fn sorted_units(units: Seq<Unit>) -> Seq<Unit>
    decreases units.len(),
{
    if units.len() == 0 {
        seq![]
    } else {
        placed(sorted_units(units.drop_last()), units.last())
    }
}

/// `a` and `b` agree in size and first card.
pub open spec fn same_place(a: Unit, b: Unit) -> bool {
    a.size() == b.size() && a.first().rank() == b.first().rank()
}

proof fn lemma_placed(t: Trump, sorted: Seq<Unit>, u: Unit, v: Unit)
    requires
        forall|i: int| 0 <= i < sorted.len() ==> (#[trigger] sorted[i]).first().trump == t,
        u.first().trump == t,
        v.first().trump == t,
        forall|i: int, j: int|
            0 <= i < j < sorted.len() ==> !unit_before(
                #[trigger] sorted[j],
                #[trigger] sorted[i],
            ),
    ensures
        placed(sorted, u).to_multiset() == sorted.to_multiset().insert(u),
        total(placed(sorted, u)) == total(sorted).add(u.tally()),
        forall|i: int, j: int|
            0 <= i < j < placed(sorted, u).len() ==> !unit_before(
                #[trigger] placed(sorted, u)[j],
                #[trigger] placed(sorted, u)[i],
            ),
        placed(sorted, u).filter(|x: Unit| same_place(x, v)) == if same_place(u, v) {
            sorted.filter(|x: Unit| same_place(x, v)).push(u)
        } else {
            sorted.filter(|x: Unit| same_place(x, v))
        },
    decreases sorted.len(),
{
    let same = |x: Unit| same_place(x, v);
    let list = placed(sorted, u);
    reveal(Seq::filter);
    if sorted.len() > 0 && unit_before(u, sorted.last()) {
        let rest = sorted.drop_last();
        let last = sorted[sorted.len() - 1];
        let shorter = placed(rest, u);
        assert forall|i: int| 0 <= i < rest.len() implies (
        #[trigger] rest[i]).first().trump == t by {
            assert(rest[i] == sorted[i]);
        }
        assert forall|i: int, j: int| 0 <= i < j < rest.len() implies !unit_before(
            #[trigger] rest[j],
            #[trigger] rest[i],
        ) by {
            assert(rest[j] == sorted[j] && rest[i] == sorted[i]);
        }
        lemma_placed(t, rest, u, v);
        assert(sorted =~= rest.push(last));
        assert(list.drop_last() =~= shorter);
        assert(list.to_multiset() =~= sorted.to_multiset().insert(u));
        assert(total(list) =~= total(sorted).add(u.tally()));
        assert forall|i: int, j: int| 0 <= i < j < list.len() implies !unit_before(
            #[trigger] list[j],
            #[trigger] list[i],
        ) by {
            if j < shorter.len() {
                assert(list[j] == shorter[j] && list[i] == shorter[i]);
            } else {
                assert(list[i] == shorter[i]);
                assert(shorter.to_multiset().count(shorter[i]) > 0) by {
                    assert(shorter.contains(shorter[i]));
                }
                if shorter[i] != u {
                    assert(rest.to_multiset().count(shorter[i]) > 0);
                    assert(rest.contains(shorter[i]));
                    let k = rest.index_of(shorter[i]);
                    assert(sorted[k] == shorter[i]);
                    assert(!unit_before(sorted[sorted.len() - 1], sorted[k]));
                }
            }
        }
        assert(list.filter(same) =~= if same(last) {
            shorter.filter(same).push(last)
        } else {
            shorter.filter(same)
        });
    } else {
        assert(list.drop_last() =~= sorted);
        assert(total(list) =~= total(sorted).add(u.tally()));
        if sorted.len() > 0 {
            let last = sorted[sorted.len() - 1];
            assert forall|i: int| 0 <= i < sorted.len() implies !unit_before(
                u,
                #[trigger] sorted[i],
            ) by {
                if i < sorted.len() - 1 {
                    assert(!unit_before(last, sorted[i]));
                }
                assert(sorted[i].first().trump == t);
                assert(last.first().trump == t);
            }
        }
    }
}

/// Sorting keeps the units, puts them in order, and leaves units that agree in size and first
/// card in the order in which they were.
pub proof fn sorted_units_are_sorted(t: Trump, units: Seq<Unit>, v: Unit)
    requires
        forall|i: int| 0 <= i < units.len() ==> (#[trigger] units[i]).first().trump == t,
        v.first().trump == t,
    ensures
        sorted_units(units).to_multiset() == units.to_multiset(),
        total(sorted_units(units)) == total(units),
        forall|i: int, j: int|
            0 <= i < j < sorted_units(units).len() ==> !unit_before(
                #[trigger] sorted_units(units)[j],
                #[trigger] sorted_units(units)[i],
            ),
        sorted_units(units).filter(|x: Unit| same_place(x, v)) == units.filter(
            |x: Unit| same_place(x, v),
        ),
    decreases units.len(),
{
    reveal(Seq::filter);
    if units.len() > 0 {
        let rest = units.drop_last();
        let last = units[units.len() - 1];
        assert forall|i: int| 0 <= i < rest.len() implies (
        #[trigger] rest[i]).first().trump == t by {
            assert(rest[i] == units[i]);
        }
        sorted_units_are_sorted(t, rest, v);
        let sorted = sorted_units(rest);
        assert forall|i: int| 0 <= i < sorted.len() implies (
        #[trigger] sorted[i]).first().trump == t by {
            assert(sorted.contains(sorted[i]));
            assert(sorted.to_multiset().count(sorted[i]) > 0);
            assert(rest.contains(sorted[i]));
            assert(rest[rest.index_of(sorted[i])] == sorted[i]);
        }
        lemma_placed(t, sorted, last, v);
        assert(units =~= rest.push(last));
    } else {
        assert(sorted_units(units) =~= units);
    }
}

/// Sorts `units`.
pub fn sort_units(units: &Units) -> (r: Units)
    requires
        forall|i: int|
            0 <= i < units.model().len() ==> (#[trigger] units.model()[i]).size() <= usize::MAX
                && units.model()[i].members().len() > 0,
    ensures
        r.model() == sorted_units(units.model()),
{
    let list = units.as_slice();
    let ghost model = units.model();
    let mut sorted = Units::new();
    assert(sorted.model() =~= sorted_units(model.take(0)));
    for i in 0..list.len()
        invariant
            list@ == units@,
            model == units.model(),
            forall|i: int|
                0 <= i < model.len() ==> (#[trigger] model[i]).size() <= usize::MAX
                    && model[i].members().len() > 0,
            sorted.model() == sorted_units(model.take(i as int)),
            forall|j: int|
                0 <= j < sorted.model().len() ==> (#[trigger] sorted.model()[j]).size()
                    <= usize::MAX && sorted.model()[j].members().len() > 0,
    {
        let unit = &list[i];
        assert(unit@ == model[i as int]);
        let ghost before = sorted.model();
        let mut at: usize = sorted.as_slice().len();
        assert(before.take(at as int) =~= before);
        assert(placed(before, unit@) =~= placed(before.take(at as int), unit@) + before.skip(
            at as int,
        ));
        while at > 0 && comes_before(unit, &sorted.as_slice()[at - 1])
            invariant
                at <= before.len(),
                before == sorted.model(),
                unit@.size() <= usize::MAX,
                unit@.members().len() > 0,
                forall|j: int|
                    0 <= j < before.len() ==> (#[trigger] before[j]).size() <= usize::MAX
                        && before[j].members().len() > 0,
                placed(before, unit@) == placed(before.take(at as int), unit@) + before.skip(
                    at as int,
                ),
            ensures
                at <= before.len(),
                before == sorted.model(),
                placed(before, unit@) == placed(before.take(at as int), unit@) + before.skip(
                    at as int,
                ),
                at > 0 ==> !unit_before(unit@, before[at - 1]),
            decreases at,
        {
            proof {
                assert(before.take(at as int).drop_last() =~= before.take(at - 1));
                assert(before.take(at as int).last() == before[at - 1]);
                assert(sorted@[at - 1]@ == before[at - 1]);
                assert(placed(before.take(at as int), unit@) + before.skip(at as int) =~= placed(
                    before.take(at - 1),
                    unit@,
                ) + before.skip(at - 1));
            }
            at = at - 1;
        }
        let copy = unit.clone();
        sorted.insert(at, copy);
        proof {
            assert(sorted.model() =~= before.insert(at as int, unit@));
            assert(placed(before.take(at as int), unit@) =~= before.take(at as int).push(unit@));
            assert(before.insert(at as int, unit@) =~= before.take(at as int).push(unit@)
                + before.skip(at as int));
            assert(model.take(i + 1).drop_last() =~= model.take(i as int));
        }
    }
    assert(model.take(list.len() as int) =~= model);
    sorted
}

fn comes_before(a: &TrickUnit, b: &TrickUnit) -> (r: bool)
    requires
        a@.size() <= usize::MAX,
        b@.size() <= usize::MAX,
        a@.members().len() > 0,
        b@.members().len() > 0,
    ensures
        r == unit_before(a@, b@),
{
    let x = a.first_card();
    let y = b.first_card();
    a.size() < b.size() || a.size() == b.size() && x < y
}

} // verus!
